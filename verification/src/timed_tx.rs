//! Timestamped transaction data: hashes, capture times and resolved bodies.
//!
//! All instants are plain integers so that the contracts can speak about them
//! directly: absolute wall-clock times and elapsed times are both counted in
//! nanoseconds, the former since the epoch, the latter since pipeline start.

use vstd::prelude::*;

verus! {

/// A 256-bit transaction hash, held as four 64-bit words.
#[derive(Clone, Copy, Debug, PartialEq, Eq, Hash, Structural)]
pub struct TxHash {
    pub w0: u64,
    pub w1: u64,
    pub w2: u64,
    pub w3: u64,
}

/// A hash paired with the elapsed time (nanoseconds since pipeline start) at
/// which it was first observed. Immutable once created: when a lookup comes
/// back not-found the pair is deferred unchanged, so the capture instant
/// survives any number of retry passes.
#[derive(Clone, Copy, Debug, PartialEq, Eq, Structural)]
pub struct TimedHash {
    pub hash: TxHash,
    pub elapsed: u64,
}

/// What the pipeline reads of a full transaction body: the hash it resolves,
/// and the block number, present exactly when the transaction is already
/// block-confirmed. The rest of the body travels outside the library.
#[derive(Clone, Copy, Debug, PartialEq, Eq)]
pub struct Transaction {
    pub hash: TxHash,
    pub block_number: Option<u64>,
}

/// A transaction resolved from a captured hash, stamped with the wall-clock
/// instant (nanoseconds since the epoch) at which the hash was captured.
#[derive(Clone, Copy, Debug, PartialEq, Eq)]
pub struct TimedTransaction {
    /// The time the transaction hash was received.
    pub timestamp: u64,

    /// The full transaction body.
    pub transaction: Transaction,
}

impl TimedTransaction {
    /// Constructs a `TimedTransaction` from a `Transaction`, computing the
    /// timestamp by adding the elapsed time to the start time provided.
    /// The timestamp reflects the capture instant of the hash, never the
    /// resolution instant.
    pub fn timestamp_tx(full_tx: Transaction, since: u64, elapsed: u64) -> (r: Self)
        requires
            since + elapsed <= u64::MAX,
        ensures
            r.timestamp == since + elapsed,
            r.transaction == full_tx,
    {
        TimedTransaction { timestamp: since + elapsed, transaction: full_tx }
    }
}

/// Decides whether a resolved transaction is surfaced to the user: pending
/// transactions always are, block-confirmed ones only when `show_old` is set.
pub fn should_show(timed_tx: &TimedTransaction, show_old: bool) -> (r: bool)
    ensures
        r == (timed_tx.transaction.block_number is None || show_old),
{
    timed_tx.transaction.block_number.is_none() || show_old
}

} // verus!
