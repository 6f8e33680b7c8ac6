//! The fault menu: everything the world is allowed to do to a device, and how often. Each fault
//! is drawn from the seeded [`Rng`] and nothing else, so a run is a function of its seed.
//!
//! The rates are deliberately hostile: the numbers that make a week of bad-network device life
//! happen in a second.
use crate::rng::{chance_of, Rng};
use vstd::prelude::*;

verus! {

/// Three days in milliseconds: how far a device's clock may be off.
pub const SKEW_MAGNITUDE_MS: i64 = 3 * 24 * 60 * 60 * 1000;

/// How long a connectivity flap lasts, in milliseconds.
pub const FLAP_DURATION_MS: i64 = 90_000;

/// How likely each fault is, in percent unless noted.
#[derive(Debug, Clone, Copy, PartialEq, Eq)]
pub struct FaultRates {
    /// Drop one request in every `drop_every_nth`. A period rather than a probability: a periodic
    /// drop lands on the same request of a repeated cycle every time.
    pub drop_every_nth: u32,
    /// Deliver a response twice.
    pub duplicate_response: u32,
    /// Hold a response back so a later one overtakes it.
    pub reorder_response: u32,
    /// Cut a response off partway through.
    pub sever_mid_batch: u32,
    /// Corrupt a response's bytes so it fails to decode.
    pub malformed_bytes: u32,
    /// Lose connectivity entirely for [`FLAP_DURATION_MS`].
    pub connectivity_flap: u32,
    /// Fail a storage transaction before it commits. Nothing is written.
    pub storage_fail_before_commit: u32,
    /// Commit a storage transaction and then lose the acknowledgement: the process dies between
    /// the write landing and the engine hearing about it.
    pub storage_commit_then_kill: u32,
    /// Restart the server with a cold cache.
    pub server_restart: u32,
    /// Restart a device, reloading its engine from storage.
    pub device_restart: u32,
    /// Send a batch that decodes and still breaks a protocol rule.
    pub protocol_violation: u32,
    /// Hold the next write of the log open for some steps.
    pub slow_commit: u32,
    /// Put the server under load.
    pub overload: u32,
    /// Milliseconds of network latency, drawn uniformly from this range.
    pub latency_ms: (u32, u32),
}

impl Default for FaultRates {
    /// The standing distribution, tuned so that in a large batch every fault fires many times.
    fn default() -> (rates: Self)
        ensures
            rates == (FaultRates {
                drop_every_nth: 7,
                duplicate_response: 12,
                reorder_response: 12,
                sever_mid_batch: 6,
                malformed_bytes: 5,
                connectivity_flap: 4,
                storage_fail_before_commit: 6,
                storage_commit_then_kill: 4,
                server_restart: 2,
                device_restart: 3,
                protocol_violation: 5,
                slow_commit: 3,
                overload: 1,
                latency_ms: (20, 2_000),
            }),
    {
        FaultRates {
            drop_every_nth: 7,
            duplicate_response: 12,
            reorder_response: 12,
            sever_mid_batch: 6,
            malformed_bytes: 5,
            connectivity_flap: 4,
            storage_fail_before_commit: 6,
            storage_commit_then_kill: 4,
            server_restart: 2,
            device_restart: 3,
            protocol_violation: 5,
            slow_commit: 3,
            overload: 1,
            latency_ms: (20, 2_000),
        }
    }
}

/// The rates of a world with no faults at all.
pub open spec fn quiet_rates() -> FaultRates {
    FaultRates {
        drop_every_nth: 0,
        duplicate_response: 0,
        reorder_response: 0,
        sever_mid_batch: 0,
        malformed_bytes: 0,
        connectivity_flap: 0,
        storage_fail_before_commit: 0,
        storage_commit_then_kill: 0,
        server_restart: 0,
        device_restart: 0,
        protocol_violation: 0,
        slow_commit: 0,
        overload: 0,
        latency_ms: (10, 10),
    }
}

impl FaultRates {
    /// A world with no faults at all, for tests that need a quiet network.
    #[must_use]
    pub fn none() -> (rates: Self)
        ensures
            rates == quiet_rates(),
    {
        FaultRates {
            drop_every_nth: 0,
            duplicate_response: 0,
            reorder_response: 0,
            sever_mid_batch: 0,
            malformed_bytes: 0,
            connectivity_flap: 0,
            storage_fail_before_commit: 0,
            storage_commit_then_kill: 0,
            server_restart: 0,
            device_restart: 0,
            protocol_violation: 0,
            slow_commit: 0,
            overload: 0,
            latency_ms: (10, 10),
        }
    }
}

/// What the world decided to do to one request, response or transaction.
#[derive(Debug, Clone, Copy, PartialEq, Eq, Structural)]
#[non_exhaustive]
pub enum Fault {
    /// The request never arrived.
    Dropped,
    /// The response arrived twice.
    Duplicated,
    /// The response was held back and overtaken.
    Reordered,
    /// The response was cut off partway.
    Severed,
    /// The response's bytes were corrupted.
    Malformed,
    /// Connectivity was lost for a while.
    Flap,
    /// A storage transaction failed before committing.
    StorageFailed,
    /// A storage transaction committed, and then the process died before the engine was told.
    StorageCommittedThenKilled,
    /// The server restarted with a cold cache.
    ServerRestarted,
    /// A device restarted and reloaded from storage.
    DeviceRestarted,
    /// The server sent a batch that decoded cleanly and broke a protocol rule.
    ProtocolViolation,
    /// A write of the log was held open.
    SlowCommit,
    /// The server was put under load.
    Overloaded,
}

/// The name of a fault.
pub open spec fn fault_name(f: Fault) -> Seq<char> {
    match f {
        Fault::Dropped => "dropped"@,
        Fault::Duplicated => "duplicated"@,
        Fault::Reordered => "reordered"@,
        Fault::Severed => "severed"@,
        Fault::Malformed => "malformed"@,
        Fault::Flap => "flap"@,
        Fault::StorageFailed => "storage-failed"@,
        Fault::StorageCommittedThenKilled => "storage-committed-then-killed"@,
        Fault::ServerRestarted => "server-restarted"@,
        Fault::DeviceRestarted => "device-restarted"@,
        Fault::ProtocolViolation => "protocol-violation"@,
        Fault::SlowCommit => "slow-commit"@,
        Fault::Overloaded => "overloaded"@,
    }
}

/// Every fault, in the order of the menu.
pub open spec fn menu() -> Seq<Fault> {
    seq![
        Fault::Dropped,
        Fault::Duplicated,
        Fault::Reordered,
        Fault::Severed,
        Fault::Malformed,
        Fault::Flap,
        Fault::StorageFailed,
        Fault::StorageCommittedThenKilled,
        Fault::ServerRestarted,
        Fault::DeviceRestarted,
        Fault::ProtocolViolation,
        Fault::SlowCommit,
        Fault::Overloaded,
    ]
}

/// The place of a fault in the menu.
pub open spec fn menu_place(f: Fault) -> int {
    match f {
        Fault::Dropped => 0,
        Fault::Duplicated => 1,
        Fault::Reordered => 2,
        Fault::Severed => 3,
        Fault::Malformed => 4,
        Fault::Flap => 5,
        Fault::StorageFailed => 6,
        Fault::StorageCommittedThenKilled => 7,
        Fault::ServerRestarted => 8,
        Fault::DeviceRestarted => 9,
        Fault::ProtocolViolation => 10,
        Fault::SlowCommit => 11,
        Fault::Overloaded => 12,
    }
}

/// The menu has every fault, once.
pub proof fn menu_is_complete(f: Fault)
    ensures
        0 <= menu_place(f) < menu().len(),
        menu()[menu_place(f)] == f,
        forall|i: int| 0 <= i < menu().len() && #[trigger] menu()[i] == f ==> i == menu_place(f),
        menu().len() == 13,
{
}

/// No two faults share a name, so a line of the coverage report is about one of them.
pub proof fn names_are_distinct(a: Fault, b: Fault)
    requires
        fault_name(a) == fault_name(b),
    ensures
        a == b,
{
    reveal_strlit("dropped");
    reveal_strlit("duplicated");
    reveal_strlit("reordered");
    reveal_strlit("severed");
    reveal_strlit("malformed");
    reveal_strlit("flap");
    reveal_strlit("storage-failed");
    reveal_strlit("storage-committed-then-killed");
    reveal_strlit("server-restarted");
    reveal_strlit("device-restarted");
    reveal_strlit("protocol-violation");
    reveal_strlit("slow-commit");
    reveal_strlit("overloaded");
    assert("dropped"@.len() == 7);
    assert("duplicated"@.len() == 10);
    assert("reordered"@.len() == 9);
    assert("severed"@.len() == 7);
    assert("malformed"@.len() == 9);
    assert("flap"@.len() == 4);
    assert("storage-failed"@.len() == 14);
    assert("storage-committed-then-killed"@.len() == 29);
    assert("server-restarted"@.len() == 16);
    assert("device-restarted"@.len() == 16);
    assert("protocol-violation"@.len() == 18);
    assert("slow-commit"@.len() == 11);
    assert("overloaded"@.len() == 10);
    // Those of the same length differ in their first letter.
    assert("dropped"@[0] == 'd' && "severed"@[0] == 's');
    assert("reordered"@[0] == 'r' && "malformed"@[0] == 'm');
    assert("duplicated"@[0] == 'd' && "overloaded"@[0] == 'o');
    assert("server-restarted"@[0] == 's' && "device-restarted"@[0] == 'd');
}

impl Fault {
    /// A short, stable name for the trace and the coverage report.
    #[must_use]
    pub fn name(self) -> (s: &'static str)
        ensures
            s@ == fault_name(self),
    {
        match self {
            Fault::Dropped => "dropped",
            Fault::Duplicated => "duplicated",
            Fault::Reordered => "reordered",
            Fault::Severed => "severed",
            Fault::Malformed => "malformed",
            Fault::Flap => "flap",
            Fault::StorageFailed => "storage-failed",
            Fault::StorageCommittedThenKilled => "storage-committed-then-killed",
            Fault::ServerRestarted => "server-restarted",
            Fault::DeviceRestarted => "device-restarted",
            Fault::ProtocolViolation => "protocol-violation",
            Fault::SlowCommit => "slow-commit",
            Fault::Overloaded => "overloaded",
        }
    }

    /// The place of the fault in the menu.
    pub fn place(self) -> (i: usize)
        ensures
            i == menu_place(self),
    {
        match self {
            Fault::Dropped => 0,
            Fault::Duplicated => 1,
            Fault::Reordered => 2,
            Fault::Severed => 3,
            Fault::Malformed => 4,
            Fault::Flap => 5,
            Fault::StorageFailed => 6,
            Fault::StorageCommittedThenKilled => 7,
            Fault::ServerRestarted => 8,
            Fault::DeviceRestarted => 9,
            Fault::ProtocolViolation => 10,
            Fault::SlowCommit => 11,
            Fault::Overloaded => 12,
        }
    }

    /// Every fault, for coverage reporting.
    pub fn all() -> (faults: Vec<Fault>)
        ensures
            faults@ == menu(),
    {
        let faults: Vec<Fault> = vec![
            Fault::Dropped,
            Fault::Duplicated,
            Fault::Reordered,
            Fault::Severed,
            Fault::Malformed,
            Fault::Flap,
            Fault::StorageFailed,
            Fault::StorageCommittedThenKilled,
            Fault::ServerRestarted,
            Fault::DeviceRestarted,
            Fault::ProtocolViolation,
            Fault::SlowCommit,
            Fault::Overloaded,
        ];
        assert(faults@ =~= menu());
        faults
    }
}

/// Whether request number `index` is one that the period drops.
pub open spec fn drops(rates: FaultRates, index: u64) -> bool {
    rates.drop_every_nth > 0 && index % (rates.drop_every_nth as u64) == 0
}

/// What happens to the response to request number `index`, and the state of the generator after:
/// four draws, in a fixed order, whatever comes of them.
pub open spec fn response_fault(s: u64, rates: FaultRates, index: u64) -> (Option<Fault>, u64) {
    let (duplicate, s1) = chance_of(s, rates.duplicate_response);
    let (reorder, s2) = chance_of(s1, rates.reorder_response);
    let (sever, s3) = chance_of(s2, rates.sever_mid_batch);
    let (malformed, s4) = chance_of(s3, rates.malformed_bytes);
    let fault = if drops(rates, index) {
        Some(Fault::Dropped)
    } else if malformed {
        Some(Fault::Malformed)
    } else if sever {
        Some(Fault::Severed)
    } else if duplicate {
        Some(Fault::Duplicated)
    } else if reorder {
        Some(Fault::Reordered)
    } else {
        None
    };
    (fault, s4)
}

/// Decides what happens to one response in flight.
///
/// Order matters and is fixed: a dropped response cannot also be duplicated, and the draws are
/// the same whatever the outcome, so one decision never shifts the next.
#[must_use]
pub fn decide_response(rng: &mut Rng, rates: &FaultRates, request_index: u64) -> (fault: Option<
    Fault,
>)
    ensures
        (fault, final(rng).state()) == response_fault(old(rng).state(), *rates, request_index),
        final(rng).origin() == old(rng).origin(),
{
    let duplicate: bool = rng.chance(rates.duplicate_response);
    let reorder: bool = rng.chance(rates.reorder_response);
    let sever: bool = rng.chance(rates.sever_mid_batch);
    let malformed: bool = rng.chance(rates.malformed_bytes);
    let dropped: bool = rates.drop_every_nth > 0 && request_index % (rates.drop_every_nth as u64)
        == 0;
    if dropped {
        Some(Fault::Dropped)
    } else if malformed {
        Some(Fault::Malformed)
    } else if sever {
        Some(Fault::Severed)
    } else if duplicate {
        Some(Fault::Duplicated)
    } else if reorder {
        Some(Fault::Reordered)
    } else {
        None
    }
}

/// What happens to a storage transaction, and the state of the generator after.
pub open spec fn storage_fault(s: u64, rates: FaultRates) -> (Option<Fault>, u64) {
    let (fail, s1) = chance_of(s, rates.storage_fail_before_commit);
    let (kill, s2) = chance_of(s1, rates.storage_commit_then_kill);
    let fault = if fail {
        Some(Fault::StorageFailed)
    } else if kill {
        Some(Fault::StorageCommittedThenKilled)
    } else {
        None
    };
    (fault, s2)
}

/// Decides what happens to one storage transaction.
#[must_use]
pub fn decide_storage(rng: &mut Rng, rates: &FaultRates) -> (fault: Option<Fault>)
    ensures
        (fault, final(rng).state()) == storage_fault(old(rng).state(), *rates),
        final(rng).origin() == old(rng).origin(),
{
    let fail: bool = rng.chance(rates.storage_fail_before_commit);
    let kill: bool = rng.chance(rates.storage_commit_then_kill);
    if fail {
        Some(Fault::StorageFailed)
    } else if kill {
        Some(Fault::StorageCommittedThenKilled)
    } else {
        None
    }
}

/// A decision costs the same draws either way: what the generator does next does not depend on
/// which request it was about, nor on what was decided.
pub proof fn decisions_cost_the_same(s: u64, rates: FaultRates, a: u64, b: u64)
    ensures
        response_fault(s, rates, a).1 == response_fault(s, rates, b).1,
{
}

/// A quiet world produces no faults, and draws nothing.
pub proof fn a_quiet_world_has_no_faults(s: u64, index: u64)
    ensures
        response_fault(s, quiet_rates(), index) == (None::<Fault>, s),
        storage_fault(s, quiet_rates()) == (None::<Fault>, s),
{
}

} // verus!
