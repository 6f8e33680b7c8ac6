//! The service: pages of the log, outcomes recorded once, and what stands before them.
use credsync::auth::{Algorithm, AuthError, Claims, ScopeRule, VerificationKey, Verifier};
use credsync::blocklist::{check, standing, Standing};
use credsync::codec::{Codec, RowState};
use credsync::db::{
    bootstrap_cursor, log_cursor, migrate, page, page_size, safe_watermark, try_migrate, Attempt, MigrateStep,
    SqlFailure, TryEvent, TryStep, WatermarkEvent, WatermarkStep, MIGRATION_ATTEMPTS,
};
use credsync::dedupe::{
    classify, decide, decide_with, mutated_reason, read_result, record, Decision, DedupeStats, RecordEvent,
    RecordStep, Recorded, StoredResult,
};
use credsync::error::ServerError;
use credsync::host::{
    forward, ForwardEvent, ForwardStep, Forwarded, HostError, HostOutcome,
};
use credsync::protocol::{
    Change, Command, CommandId, CommandName, CommandResult, Cursor, EntityId, EntityName,
    HexString, Op, Payload, ProtocolError, ProtocolVersion, Reason, RowVersion, SchemaVersion,
    ScopeId, SeqNo, Snapshot, Status,
};
use credsync::pull::{fill_batch, ChangeRow, DEFAULT_BUDGET_BYTES};
use credsync::request::{
    authorize, bearer, check_secret, confirm, refuse, requested_scope, AuthHeader,
};
use credsync::transport::SimCompressor;
use credsync::version::VersionPolicy;

struct Plain;

impl Codec for Plain {
    fn encode(&self, change: &Change) -> Option<Vec<u8>> {
        change
            .snapshot
            .as_ref()
            .map(|s| s.as_str().as_bytes().to_vec())
    }

    fn checksum(&self, changes: &Vec<Change>) -> Option<HexString> {
        if changes.len() == 13 {
            return None;
        }
        Some(HexString::new(&format!("{:032x}", changes.len())))
    }

    fn digest(&self, rows: &Vec<RowState>) -> HexString {
        HexString::new(&format!("{:032x}", rows.len()))
    }

    fn payload(&self, json: &String) -> Option<HexString> {
        Some(HexString::new(&format!("{:032x}", json.len())))
    }
}

/// Anything without a space is a scope id.
struct Spaceless;

impl ScopeRule for Spaceless {
    fn scope_id(&self, text: &String) -> Result<ScopeId, ProtocolError> {
        if text.is_empty() || text.contains(' ') {
            Err(ProtocolError::Invalid {
                detail: "not a scope id".to_owned(),
            })
        } else {
            Ok(ScopeId::new(text))
        }
    }
}

fn scope() -> ScopeId {
    ScopeId::new("inst:acme")
}

fn digest() -> HexString {
    HexString::new("d1")
}

/// A change whose encoding is `size` bytes long.
fn change(seq: u64, size: usize) -> Change {
    Change {
        seq: SeqNo::new(seq).expect("not zero"),
        entity: EntityName::new("notes"),
        entity_id: EntityId::new("n"),
        op: Op::Upsert,
        snapshot: Some(Snapshot::new(&"x".repeat(size))),
        row_version: RowVersion::new(seq).expect("not zero"),
        schema_version: SchemaVersion::new(1).expect("not zero"),
    }
}

fn batch_of(
    changes: Vec<Change>,
    more: bool,
    budget: usize,
    ratio: usize,
) -> credsync::protocol::Batch {
    fill_batch(
        &scope(),
        Cursor { position: 5 },
        changes,
        more,
        budget,
        &SimCompressor::with_ratio(ratio),
        digest(),
        &Plain,
    )
    .expect("fills")
}

/// The bytes of a batch are its changes between brackets, with commas: two of 10 bytes are 23.
#[test]
fn the_budget_counts_the_whole_batch() {
    let two = || vec![change(6, 10), change(7, 10)];
    let both = batch_of(two(), false, 23, 1);
    assert_eq!(both.changes.len(), 2);
    assert_eq!(both.next_cursor.get(), 7);
    assert!(!both.has_more);
    assert_eq!(both.checksum.as_str(), format!("{:032x}", 2));
    assert_eq!(both.digest.as_str(), "d1");

    let one = batch_of(two(), false, 22, 1);
    assert_eq!(one.changes.len(), 1);
    assert_eq!(one.next_cursor.get(), 6);
    assert!(one.has_more);
}

#[test]
fn a_better_ratio_fits_more_changes() {
    let six = || (6..12).map(|n| change(n, 30)).collect::<Vec<Change>>();
    let plain = batch_of(six(), false, 70, 1);
    let squeezed = batch_of(six(), false, 70, 4);
    assert_eq!(plain.changes.len(), 2);
    assert_eq!(squeezed.changes.len(), 6);
}

/// One change goes even when it is over the budget by itself, and the walk continues past it.
#[test]
fn an_oversized_change_goes_alone() {
    let first = batch_of(vec![change(6, 900), change(7, 1)], false, 100, 1);
    assert_eq!(first.changes.len(), 1);
    assert!(first.has_more);
    assert_eq!(first.next_cursor.get(), 6);
    let rest = batch_of(vec![change(7, 1)], false, 100, 1);
    assert_eq!(rest.next_cursor.get(), 7);
    assert!(!rest.has_more);
}

#[test]
fn an_empty_read_keeps_the_cursor() {
    let nothing = batch_of(vec![], false, DEFAULT_BUDGET_BYTES, 3);
    assert!(nothing.changes.is_empty());
    assert_eq!(nothing.next_cursor.get(), 5);
    assert!(!nothing.has_more);
    // Rows that were not read count as more.
    assert!(batch_of(vec![change(6, 1)], true, 100, 1).has_more);
}

#[test]
fn a_change_that_cannot_be_encoded_is_corruption() {
    let mut bare = change(6, 1);
    bare.snapshot = None;
    let stuck = fill_batch(
        &scope(),
        Cursor::start(),
        vec![bare],
        false,
        100,
        &SimCompressor::default(),
        digest(),
        &Plain,
    );
    assert_eq!(
        stuck.expect_err("not encodable").message(),
        "corrupt change log: a change in the log could not be encoded"
    );
    let unlucky = fill_batch(
        &scope(),
        Cursor::start(),
        (1..14).map(|n| change(n, 1)).collect(),
        false,
        1_000,
        &SimCompressor::default(),
        digest(),
        &Plain,
    );
    assert_eq!(
        unlucky.expect_err("no checksum").message(),
        "corrupt change log: a batch could not be encoded for checksumming"
    );
}

fn row(seq: i64) -> ChangeRow {
    ChangeRow {
        seq,
        entity: Ok(EntityName::new("notes")),
        entity_id: Ok(EntityId::new("n1")),
        op: "upsert".to_owned(),
        snapshot: Some(Ok(Snapshot::new("{}"))),
        row_version: seq,
        schema_version: 1,
    }
}

fn fault_of(row: ChangeRow) -> String {
    row.into_change().expect_err("refused").message()
}

#[test]
fn a_row_becomes_a_change() {
    let c = row(7).into_change().expect("valid");
    assert_eq!(c.seq.get(), 7);
    assert_eq!(c.op, Op::Upsert);
    let mut gone = row(8);
    gone.op = "delete".to_owned();
    gone.snapshot = None;
    let c = gone.into_change().expect("valid");
    assert_eq!(c.op, Op::Delete);
    assert_eq!(c.snapshot, None);
}

#[test]
fn a_row_that_cannot_exist_is_refused() {
    let mut r = row(7);
    r.op = "merge".to_owned();
    assert_eq!(
        fault_of(r),
        "corrupt change log: sync_changes.op is 'merge', which is not a valid op"
    );
    let mut r = row(7);
    r.snapshot = None;
    assert_eq!(
        fault_of(r),
        "corrupt change log: sync_changes.seq 7 is an upsert with no snapshot"
    );
    let mut r = row(7);
    r.op = "delete".to_owned();
    assert_eq!(
        fault_of(r),
        "corrupt change log: sync_changes.seq 7 is a delete carrying a snapshot"
    );
    assert_eq!(
        fault_of(row(-3)),
        "corrupt change log: sync_changes.seq -3 is negative"
    );
    let mut r = row(7);
    r.row_version = -1;
    assert_eq!(
        fault_of(r),
        "corrupt change log: sync_changes.row_version -1 is negative"
    );
    let mut r = row(7);
    r.schema_version = 70_000;
    assert_eq!(
        fault_of(r),
        "corrupt change log: sync_changes.schema_version 70000 does not fit the wire's range"
    );
    assert_eq!(
        fault_of(row(0)),
        "corrupt change log: must not be zero"
    );
    let mut r = row(7);
    r.entity = Err(ProtocolError::Invalid {
        detail: "no such entity".to_owned(),
    });
    assert_eq!(
        fault_of(r),
        "corrupt change log: no such entity"
    );
}

#[test]
fn a_page_takes_up_to_its_limit() {
    assert_eq!(page_size(3, 2), 2);
    assert_eq!(page_size(2, 2), 2);
    assert_eq!(page_size(2, -1), 2);
    let p = page(vec![row(1), row(2)], 3, 2).expect("valid");
    assert_eq!(p.changes.len(), 2);
    assert!(p.more_beyond);
    let p = page(vec![row(1), row(2)], 2, 2).expect("valid");
    assert_eq!(p.changes.len(), 2);
    assert!(!p.more_beyond);
    assert_eq!(
        page(vec![row(1), row(0)], 2, 2).expect_err("zero").message(),
        "corrupt change log: must not be zero"
    );
}

#[test]
fn a_cursor_fits_a_bigint_or_is_refused() {
    assert_eq!(log_cursor(i64::MAX as u64), Ok(i64::MAX));
    assert_eq!(
        log_cursor(1 << 63).expect_err("too large").message(),
        "corrupt change log: cursor 9223372036854775808 does not fit a bigint"
    );
    assert_eq!(bootstrap_cursor(12), Ok(12));
    assert!(bootstrap_cursor(u64::MAX).is_err());
}

fn broken(lock_unavailable: bool) -> SqlFailure {
    SqlFailure {
        code: Some(if lock_unavailable { "55P03" } else { "42P01" }.to_owned()),
        detail: "driver says no".to_owned(),
    }
}

#[test]
fn a_contended_migration_waits_longer_each_time_and_gives_up() {
    for attempt in 0..MIGRATION_ATTEMPTS {
        let outcome = Attempt::Contended {
            by: "somebody".to_owned(),
        };
        match migrate(attempt, outcome) {
            MigrateStep::Retry { wait_ms, next } => {
                assert_eq!(wait_ms, u64::from(attempt + 1) * 100);
                assert_eq!(next, attempt + 1);
                assert!(attempt < 9);
            }
            MigrateStep::GiveUp { wait_ms, error } => {
                assert_eq!(attempt, 9);
                assert_eq!(wait_ms, 1_000);
                assert!(error.message().ends_with("(somebody)"));
            }
            other => panic!("{other:?}"),
        }
    }
    assert!(matches!(migrate(0, Attempt::Done), MigrateStep::Done));
    let failed = Attempt::Failed {
        detail: "disk".to_owned(),
    };
    match migrate(0, failed) {
        MigrateStep::Failed(e) => assert_eq!(e.message(), "database failure: disk"),
        other => panic!("{other:?}"),
    }
}

/// The lock is tried, never waited for, and released whatever came of the statements.
#[test]
fn a_migration_attempt_releases_its_lock() {
    assert!(matches!(try_migrate(TryEvent::Start), TryStep::SetTimeout));
    assert!(matches!(
        try_migrate(TryEvent::TimeoutSet(Ok(()))),
        TryStep::TryLock
    ));
    assert!(matches!(
        try_migrate(TryEvent::LockTried(Ok(false))),
        TryStep::ResetThen(Attempt::Contended { .. })
    ));
    assert!(matches!(
        try_migrate(TryEvent::LockTried(Ok(true))),
        TryStep::Apply
    ));
    assert!(matches!(
        try_migrate(TryEvent::Applied(Err(broken(true)))),
        TryStep::Unlock { applied: Err(_) }
    ));
    assert!(matches!(
        try_migrate(TryEvent::Unlocked {
            applied: Err(broken(true)),
            unlocked: Ok(())
        }),
        TryStep::ResetThen(Attempt::Contended { .. })
    ));
    assert!(matches!(
        try_migrate(TryEvent::Unlocked {
            applied: Err(broken(false)),
            unlocked: Ok(())
        }),
        TryStep::ResetThen(Attempt::Failed { .. })
    ));
    assert!(matches!(
        try_migrate(TryEvent::Unlocked {
            applied: Ok(()),
            unlocked: Ok(())
        }),
        TryStep::ResetThen(Attempt::Done)
    ));
}

/// A watermark is read only under the lock, and a busy writer means an older one.
#[test]
fn a_watermark_is_established_or_looked_up() {
    assert!(matches!(
        safe_watermark(WatermarkEvent::Start),
        WatermarkStep::Begin
    ));
    assert!(matches!(
        safe_watermark(WatermarkEvent::TimeoutSet(Ok(()))),
        WatermarkStep::Lock
    ));
    assert!(matches!(
        safe_watermark(WatermarkEvent::Locked(Ok(()))),
        WatermarkStep::Record
    ));
    assert!(matches!(
        safe_watermark(WatermarkEvent::Locked(Err(broken(true)))),
        WatermarkStep::Commit { established: None }
    ));
    assert!(matches!(
        safe_watermark(WatermarkEvent::Recorded(Ok(9))),
        WatermarkStep::Commit {
            established: Some(9)
        }
    ));
    assert!(matches!(
        safe_watermark(WatermarkEvent::Committed {
            established: Some(9),
            closed: Ok(())
        }),
        WatermarkStep::Use(9)
    ));
    assert!(matches!(
        safe_watermark(WatermarkEvent::Committed {
            established: None,
            closed: Ok(())
        }),
        WatermarkStep::LookUp
    ));
    assert!(matches!(
        safe_watermark(WatermarkEvent::LookedUp(Ok(None))),
        WatermarkStep::Use(0)
    ));
    assert!(matches!(
        safe_watermark(WatermarkEvent::LookedUp(Err(broken(false)))),
        WatermarkStep::Failed(_)
    ));
}

fn id(n: u8) -> CommandId {
    let mut bytes = [0u8; 16];
    bytes[6] = 0x70;
    bytes[15] = n;
    CommandId::from_bytes(bytes).expect("version 7")
}

fn command(body: &str) -> Command {
    Command {
        id: id(1),
        name: CommandName::new("submit"),
        scope: scope(),
        payload: Payload::new(body.to_owned(), &Plain),
        client_ts: 0,
        checksum: HexString::new("00"),
    }
}

fn answer(status: Status, reason: Option<&str>, seq: Option<u64>) -> CommandResult {
    CommandResult {
        id: id(1),
        status,
        reason: reason.map(Reason::new),
        server_seq: seq.map(|s| SeqNo::new(s).expect("not zero")),
    }
}

#[test]
fn a_body_decides_between_replay_and_refusal() {
    let first = command("one");
    assert!(matches!(decide(&first, None), Ok(Decision::Fresh)));
    let recorded = Recorded {
        checksum: first.payload.checksum().expect("weighed").text.clone(),
        result: answer(Status::Applied, None, Some(4)),
    };
    match decide(&first, Some(&recorded)) {
        Ok(Decision::Replay(r)) => assert_eq!(r, recorded.result),
        other => panic!("{other:?}"),
    }
    match decide(&command("another"), Some(&recorded)) {
        Ok(Decision::Mutated {
            recorded,
            submitted,
        }) => assert_ne!(recorded, submitted),
        other => panic!("{other:?}"),
    }
    let mut unencodable = command("one");
    unencodable.payload = Payload::new("one".to_owned(), &Fixed(None));
    assert!(decide(&unencodable, Some(&recorded)).is_err());
}

/// A codec that gives every payload the same checksum, or none.
struct Fixed(Option<String>);

impl Codec for Fixed {
    fn encode(&self, change: &Change) -> Option<Vec<u8>> {
        Plain.encode(change)
    }

    fn checksum(&self, changes: &Vec<Change>) -> Option<HexString> {
        Plain.checksum(changes)
    }

    fn digest(&self, rows: &Vec<RowState>) -> HexString {
        Plain.digest(rows)
    }

    fn payload(&self, _json: &String) -> Option<HexString> {
        self.0.as_ref().map(|text| HexString::new(text))
    }
}

/// A checksum that another codec gave a payload is not believed when the text is weighed again.
#[test]
fn a_checksum_that_a_payload_only_claims_is_not_believed() {
    let first = command("one");
    let recorded = Recorded {
        checksum: first.payload.checksum().expect("weighed").text.clone(),
        result: answer(Status::Applied, None, Some(4)),
    };
    let claimed = first.payload.checksum().expect("weighed").text.clone();
    let mut dressed = command("another");
    dressed.payload = Payload::new("another".to_owned(), &Fixed(Some(claimed)));
    assert!(matches!(
        decide(&dressed, Some(&recorded)),
        Ok(Decision::Replay(_))
    ));
    assert!(matches!(
        decide_with(&dressed, Some(&recorded), &Plain),
        Ok(Decision::Mutated { .. })
    ));
    let mut bare = command("one");
    bare.payload = Payload::new("one".to_owned(), &Fixed(None));
    match decide_with(&bare, Some(&recorded), &Plain) {
        Ok(Decision::Replay(r)) => assert_eq!(r, recorded.result),
        other => panic!("{other:?}"),
    }
    assert!(matches!(
        decide_with(&bare, None, &Plain),
        Ok(Decision::Fresh)
    ));
}

fn stored(status: &str) -> StoredResult {
    StoredResult {
        payload_checksum: format!("{:032x}", 3),
        status: status.to_owned(),
        reason: None,
        server_seq: None,
    }
}

#[test]
fn a_stored_row_reads_back() {
    let mut applied = stored("applied");
    applied.server_seq = Some(12);
    assert_eq!(
        read_result(id(1), applied),
        Ok(answer(Status::Applied, None, Some(12)))
    );
    let mut refused = stored("rejected");
    refused.reason = Some(Ok(Reason::new("Too late.")));
    match classify(&command("one"), Some(refused)) {
        Ok(Decision::Replay(r)) => assert_eq!(r, answer(Status::Rejected, Some("Too late."), None)),
        other => panic!("{other:?}"),
    }
    assert!(read_result(id(1), stored("pending")).is_err());
    assert_eq!(
        read_result(id(1), stored("rejected"))
            .expect_err("no reason")
            .message(),
        "corrupt change log: a rejection must carry a reason"
    );
    assert_eq!(
        ServerError::from(ProtocolError::Zero).message(),
        "invalid value in the change log: must not be zero"
    );
    let mut backwards = stored("applied");
    backwards.server_seq = Some(-1);
    assert!(read_result(id(1), backwards).is_err());
}

/// The first record is the one that counts.
#[test]
fn recording_keeps_the_first_outcome() {
    let c = command("one");
    let mine = answer(Status::Applied, None, Some(4));
    match record(&c, &mine, RecordEvent::Start) {
        RecordStep::Insert(row) => {
            assert_eq!(row.command_id, "00000000-0000-7000-0000-000000000001");
            assert_eq!(row.status, "applied");
            assert_eq!(row.server_seq, Some(4));
            assert_eq!(row.reason, None);
            assert_eq!(row.scope, "inst:acme");
            assert_eq!(row.payload_checksum, format!("{:032x}", 3));
        }
        other => panic!("{other:?}"),
    }
    match record(&c, &mine, RecordEvent::Inserted(1)) {
        RecordStep::Done(r) => assert_eq!(r, mine),
        other => panic!("{other:?}"),
    }
    assert!(matches!(
        record(&c, &mine, RecordEvent::Inserted(0)),
        RecordStep::Classify
    ));
    let theirs = answer(Status::Superseded, None, None);
    match record(&c, &mine, RecordEvent::Found(Decision::Replay(theirs.clone()))) {
        RecordStep::Done(r) => assert_eq!(r, theirs),
        other => panic!("{other:?}"),
    }
}

#[test]
fn forwarding_asks_the_host_once_and_records_its_verdict() {
    assert!(matches!(
        forward(id(1), ForwardEvent::Start),
        ForwardStep::Classify
    ));
    assert!(matches!(
        forward(id(1), ForwardEvent::Classified(Ok(Decision::Fresh))),
        ForwardStep::AskHost
    ));
    let outcome = HostOutcome::Rejected {
        reason: Reason::new("Closed."),
    };
    match forward(id(1), ForwardEvent::Answered(Ok(outcome))) {
        ForwardStep::Record(r) => assert_eq!(r, answer(Status::Rejected, Some("Closed."), None)),
        other => panic!("{other:?}"),
    }
    let outcome = HostOutcome::Applied {
        server_seq: SeqNo::new(8).expect("not zero"),
    };
    match forward(id(1), ForwardEvent::Answered(Ok(outcome))) {
        ForwardStep::Record(r) => assert_eq!(r, answer(Status::Applied, None, Some(8))),
        other => panic!("{other:?}"),
    }
    let final_one = answer(Status::Superseded, None, None);
    match forward(id(1), ForwardEvent::Recorded(Ok(final_one.clone()))) {
        ForwardStep::Done(f) => {
            assert_eq!(f.result(), Some(&final_one));
            assert!(matches!(f, Forwarded::Decided(_)));
        }
        other => panic!("{other:?}"),
    }
}

/// A replay never reaches the host, nor does a reused id, and a host that fails decides nothing.
#[test]
fn forwarding_stops_where_nothing_is_to_be_asked() {
    let known = answer(Status::Applied, None, Some(3));
    match forward(
        id(1),
        ForwardEvent::Classified(Ok(Decision::Replay(known.clone()))),
    ) {
        ForwardStep::Done(Forwarded::Replayed(r)) => assert_eq!(r, known),
        other => panic!("{other:?}"),
    }
    let reuse = Decision::Mutated {
        recorded: "a".to_owned(),
        submitted: "b".to_owned(),
    };
    match forward(id(1), ForwardEvent::Classified(Ok(reuse))) {
        ForwardStep::Done(Forwarded::Mutated(r)) => {
            assert_eq!(r.status, Status::Rejected);
            assert_eq!(r.reason, Some(mutated_reason()));
        }
        other => panic!("{other:?}"),
    }
    for error in [
        HostError::Timeout,
        HostError::Status { code: 503 },
        HostError::Unreachable {
            detail: "refused".to_owned(),
        },
        HostError::Malformed {
            detail: "html".to_owned(),
        },
    ] {
        match forward(id(1), ForwardEvent::Answered(Err(error))) {
            ForwardStep::Done(f) => {
                assert!(matches!(f, Forwarded::Unresolved { .. }));
                assert_eq!(f.result(), None);
            }
            other => panic!("{other:?}"),
        }
    }
    assert_eq!(
        HostError::Status { code: 503 }.message(),
        "the host answered with status 503"
    );
    let lost = ServerError::Database {
        detail: "gone".to_owned(),
    };
    assert!(matches!(
        forward(id(1), ForwardEvent::Classified(Err(lost))),
        ForwardStep::Failed(ServerError::Database { .. })
    ));
}

#[test]
fn submissions_add_up() {
    let stats = DedupeStats {
        fresh: 3,
        replays: 2,
        mutated: 1,
    };
    assert_eq!(stats.total(), 6);
}

/// An unreadable blocklist refuses rather than allows, and looks the same as a block.
#[test]
fn the_blocklist_fails_closed() {
    assert_eq!(standing(Ok(0)), Ok(Standing::Allowed));
    assert_eq!(standing(Ok(1)), Ok(Standing::Blocked));
    assert!(Standing::Allowed.is_allowed());
    assert!(!Standing::Blocked.is_allowed());
    let lost = ServerError::Database {
        detail: "gone".to_owned(),
    };
    assert_eq!(check(&scope(), Ok(Standing::Allowed)), Ok(()));
    let blocked = check(&scope(), Ok(Standing::Blocked)).expect_err("blocked");
    let unreadable = check(&scope(), Err(lost)).expect_err("unreadable");
    assert_eq!(blocked, unreadable);
}

fn text(s: &str) -> AuthHeader {
    AuthHeader::Text(s.to_owned())
}

/// The scheme is read in any case, and a header that is not one is refused.
#[test]
fn a_bearer_header_carries_a_token() {
    for fine in ["Bearer abc", "bearer abc", "BEARER   abc"] {
        assert_eq!(bearer(&text(fine)), Ok("abc".to_owned()), "{fine}");
    }
    for bad in ["", "Bearer", "Bearer ", "Basic abc", "abc"] {
        assert!(
            matches!(bearer(&text(bad)), Err(AuthError::Malformed { .. })),
            "{bad}"
        );
    }
    assert_eq!(
        bearer(&AuthHeader::Absent).expect_err("absent").message(),
        AuthError::Malformed {
            detail: "no Authorization header".to_owned()
        }
        .message()
    );
    assert!(bearer(&AuthHeader::NotAscii).is_err());
}

const SECRET: &[u8] = b"a-test-signing-secret-that-is-long-enough";

fn token(scopes: &[&str], exp: i64) -> String {
    let mut claims = serde_json::Map::new();
    claims.insert("scopes".to_owned(), serde_json::Value::from(scopes.to_vec()));
    claims.insert("exp".to_owned(), serde_json::Value::from(exp));
    jsonwebtoken::encode(
        &jsonwebtoken::Header::new(jsonwebtoken::Algorithm::HS256),
        &claims,
        &jsonwebtoken::EncodingKey::from_secret(SECRET),
    )
    .expect("encodes")
}

fn allowed(header: &AuthHeader, wanted: &str) -> Result<Claims, AuthError> {
    let verifier = Verifier::new(
        VerificationKey::from_secret(SECRET.to_vec()),
        Algorithm::HS256,
        0,
    );
    let scope = requested_scope(&Spaceless, &wanted.to_owned())?;
    let claims = authorize(header, &verifier, &Spaceless, &scope)?;
    confirm(claims, &scope, Ok(Standing::Allowed))
}

/// A request reaches its own scope, and everything else is refused in one way but for expiry.
#[test]
fn requests_are_let_in_by_their_token_alone() {
    let far = 4_000_000_000;
    let good = text(&format!("Bearer {}", token(&["inst:acme"], far)));
    let claims = allowed(&good, "inst:acme").expect("allowed");
    assert_eq!(claims.scopes.len(), 1);

    let other = allowed(&good, "inst:other").expect_err("not claimed");
    let nonsense = allowed(&good, "not a scope").expect_err("no scope");
    let absent = allowed(&AuthHeader::Absent, "inst:acme").expect_err("no token");
    assert_eq!(refuse(&other), refuse(&nonsense));
    assert_eq!(refuse(&other), refuse(&absent));
    assert_eq!(refuse(&other).status, 403);

    let stale = text(&format!("Bearer {}", token(&["inst:acme"], 1_000)));
    let expired = allowed(&stale, "inst:acme").expect_err("expired");
    assert_eq!(refuse(&expired).status, 401);
    assert_ne!(refuse(&expired).error, refuse(&other).error);

    let blocked = confirm(claims, &scope(), Ok(Standing::Blocked)).expect_err("blocked");
    assert_eq!(refuse(&blocked), refuse(&other));
}

#[test]
fn a_short_secret_is_refused() {
    assert!(check_secret(&SECRET.to_vec()).is_ok());
    assert!(check_secret(&vec![7; 32]).is_ok());
    assert_eq!(
        check_secret(&vec![7; 31]),
        Err("CREDSYNC_TOKEN_SECRET must be at least 32 bytes")
    );
}

/// The server has moved to protocol 5, so it accepts 5 and 4.
const SERVER_CURRENT: u16 = 5;
/// A device one version behind: still inside the window.
const RECENT_CLIENT: u16 = 4;

/// A device one version behind keeps working.
#[test]
fn a_device_one_version_behind_is_still_served() {
    let p = |n: u16| ProtocolVersion::new(n).expect("valid protocol version");
    let policy = VersionPolicy::window(p(SERVER_CURRENT));
    assert!(
        policy.negotiate(p(RECENT_CLIENT)).is_accepted(),
        "a device one version behind was cut off mid-rollout"
    );
}
