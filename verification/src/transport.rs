//! The network as a device sees it: requests are parked for the world to carry, and the answer
//! arrives later or never.
use crate::protocol::{BootstrapRequest, PullRequest, PullResponse, PushRequest, PushResponse};
use crate::pull::Compressor;
use vstd::prelude::*;

verus! {

/// What a device sends.
#[derive(Debug, PartialEq, Eq)]
pub enum WireRequest {
    Pull(PullRequest),
    Push(PushRequest),
    Bootstrap(BootstrapRequest),
}

/// What a device receives.
#[derive(Debug, PartialEq, Eq)]
pub enum WireResponse {
    Pull(PullResponse),
    Push(PushResponse),
}

/// Why there is no response.
#[derive(Debug, PartialEq, Eq)]
pub enum TransportError {
    /// The request could not be sent.
    Unreachable { detail: String },
    /// Bytes arrived that do not decode.
    Malformed { detail: String },
}

/// A request handed to the network, waiting for the world to carry it.
#[derive(Debug, PartialEq, Eq)]
pub struct Outbound {
    /// The handle that the answer will quote.
    pub id: u64,
    /// What was sent.
    pub request: WireRequest,
}

/// A transport that parks requests for the world to deliver.
#[derive(Debug)]
pub struct SimTransport {
    /// Requests waiting to be carried.
    pub pending: Vec<Outbound>,
    /// The handle of the last request, 0 before the first.
    pub next_id: u64,
    /// While offline, requests are refused outright: a flap the device can see.
    pub online: bool,
}

impl SimTransport {
    /// A transport with nothing in flight.
    #[must_use]
    pub fn new() -> (t: Self)
        ensures
            t.pending@.len() == 0,
            t.next_id == 0,
            t.online,
    {
        SimTransport { pending: Vec::new(), next_id: 0, online: true }
    }

    /// Takes everything queued since the last call.
    #[must_use]
    pub fn drain(&mut self) -> (taken: Vec<Outbound>)
        ensures
            taken@ == old(self).pending@,
            final(self).pending@.len() == 0,
            final(self).next_id == old(self).next_id,
            final(self).online == old(self).online,
    {
        let mut taken: Vec<Outbound> = Vec::new();
        core::mem::swap(&mut taken, &mut self.pending);
        taken
    }

    /// Queues a request and gives it a handle: one more than the last.
    ///
    /// # Errors
    /// [`TransportError::Unreachable`] while offline, and nothing is queued.
    pub fn enqueue(&mut self, req: WireRequest) -> (r: Result<u64, TransportError>)
        requires
            old(self).next_id < u64::MAX,
        ensures
            final(self).online == old(self).online,
            old(self).online ==> {
                &&& r == Ok::<u64, TransportError>((old(self).next_id + 1) as u64)
                &&& final(self).next_id == old(self).next_id + 1
                &&& final(self).pending@ == old(self).pending@.push(
                    Outbound { id: (old(self).next_id + 1) as u64, request: req },
                )
            },
            !old(self).online ==> {
                &&& r matches Err(TransportError::Unreachable { detail })
                &&& detail@ == "simulated connectivity flap"@
                &&& *final(self) == *old(self)
            },
    {
        if !self.online {
            return Err(
                TransportError::Unreachable { detail: "simulated connectivity flap".to_owned() },
            );
        }
        self.next_id = self.next_id + 1;
        let id: u64 = self.next_id;
        self.pending.push(Outbound { id, request: req });
        Ok(id)
    }
}

impl Default for SimTransport {
    fn default() -> (t: Self)
        ensures
            t.pending@.len() == 0,
            t.next_id == 0,
            t.online,
    {
        SimTransport::new()
    }
}

/// A compressor with a fixed, deterministic ratio: pure and stateless, so that two runs of one
/// seed fill the same batches.
#[derive(Debug, Clone, Copy)]
pub struct SimCompressor {
    /// How much the payload shrinks. 1 means incompressible.
    divisor: usize,
}

/// `n / d`, rounded up.
pub open spec fn rounded_up(n: nat, d: nat) -> nat {
    if n % d == 0 {
        n / d
    } else {
        n / d + 1
    }
}

impl SimCompressor {
    /// The ratio.
    pub closed spec fn ratio(&self) -> usize {
        self.divisor
    }

    #[verifier::type_invariant]
    closed spec fn divides(&self) -> bool {
        self.divisor > 0
    }

    /// A compressor with the given ratio; 0 stands for 1.
    #[must_use]
    pub fn with_ratio(divisor: usize) -> (c: Self)
        ensures
            c.ratio() == if divisor == 0 {
                1
            } else {
                divisor
            },
    {
        SimCompressor {
            divisor: if divisor == 0 {
                1
            } else {
                divisor
            },
        }
    }
}

/// There is a compressor of every ratio.
pub proof fn a_compressor_of(ratio: usize) -> (c: SimCompressor)
    requires
        ratio > 0,
    ensures
        c.ratio() == ratio,
{
    SimCompressor { divisor: ratio }
}

/// A compressor is its ratio.
pub proof fn same_ratio_same_compressor(a: SimCompressor, b: SimCompressor)
    requires
        a.ratio() == b.ratio(),
    ensures
        a == b,
{
}

impl Default for SimCompressor {
    /// Roughly what compact JSON of repetitive documents achieves.
    fn default() -> (c: Self)
        ensures
            c.ratio() == 4,
    {
        SimCompressor::with_ratio(4)
    }
}

impl Compressor for SimCompressor {
    open spec fn measure(&self, bytes: Seq<u8>) -> nat {
        rounded_up(bytes.len(), self.ratio() as nat)
    }

    fn compressed_len(&self, bytes: &[u8]) -> (n: usize) {
        proof {
            use_type_invariant(self);
            let n = bytes@.len() as int;
            let d = self.divisor as int;
            assert(n / d <= n) by (nonlinear_arith)
                requires
                    n >= 0,
                    d > 0,
            ;
            assert(n % d != 0 ==> n / d < n) by (nonlinear_arith)
                requires
                    n >= 0,
                    d > 0,
            ;
        }
        let whole: usize = bytes.len() / self.divisor;
        if bytes.len() % self.divisor == 0 {
            whole
        } else {
            whole + 1
        }
    }
}

/// What a compressor measures is enough for the bytes at its ratio, and not by a whole unit too
/// much.
pub proof fn a_measure_is_rounded_up(n: nat, d: nat)
    requires
        d > 0,
    ensures
        rounded_up(n, d) * d >= n,
        n > 0 ==> (rounded_up(n, d) - 1) * d < n,
        n == 0 ==> rounded_up(n, d) == 0,
{
    vstd::arithmetic::div_mod::lemma_fundamental_div_mod(n as int, d as int);
    vstd::arithmetic::div_mod::lemma_mod_bound(n as int, d as int);
    let q = (n / d) as int;
    let r = (n % d) as int;
    let k = d as int;
    assert(q * k == k * q && (q + 1) * k == k * q + k && (q - 1) * k == k * q - k)
        by (nonlinear_arith);
    if n == 0 {
        assert(q == 0) by (nonlinear_arith)
            requires
                0 == k * q + r,
                0 <= r < k,
        ;
    }
}

} // verus!
