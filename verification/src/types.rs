use vstd::prelude::*;

verus! {

/// A standing obligation to pay `spend_rate` from its owner's account to
/// `target` on every tick, until it is closed or exhausted.
#[derive(Clone, Copy, PartialEq, Eq, Structural, Debug)]
pub struct Stream {
    pub target: u64,
    pub spend_rate: u64,
}

/// Whether a transfer may empty the source account, removing it from the
/// ledger, or must leave both parties alive. A configuration choice of the
/// deployment, not of individual streams.
#[derive(Clone, Copy, PartialEq, Eq, Structural, Debug)]
pub enum SurvivalPolicy {
    AllowDestinationOrSourceToBeRemoved,
    RequireBothSurvive,
}

/// Why the ledger refused a transfer.
#[derive(Clone, Copy, PartialEq, Eq, Structural, Debug)]
pub enum TransferError {
    /// The source account holds less than the requested amount.
    InsufficientFunds,
    /// The transfer would empty the source account while the survival policy
    /// requires both parties to survive.
    WouldRemoveSource,
    /// Crediting the destination would overflow its balance.
    Overflow,
}

/// Error for the stream-payments operations.
#[derive(Clone, Copy, PartialEq, Eq, Structural, Debug)]
pub enum Error {
    /// A new stream cannot be opened because the maximum number of
    /// streams for the source account was already reached.
    StreamLimitReached,
    /// Cannot create a stream with the target being the same account as the source.
    ReflexiveStream,
    /// Cannot create a stream with a higher spend rate than the source's free balance.
    InsufficientBalance,
    /// A stream with the given source and index does not exist.
    StreamNotFound,
}

/// Domain events emitted by the stream-payments operations, in the order
/// they happened. Each carries source, target and amount.
#[derive(Clone, Copy, PartialEq, Eq, Structural, Debug)]
pub enum Event {
    /// A new stream was successfully opened.
    StreamOpened(u64, u64, u64),
    /// A stream was successfully closed.
    StreamClosed(u64, u64, u64),
    /// A stream was automatically closed because its source could no longer
    /// afford it.
    StreamExhausted(u64, u64, u64),
    /// A payment was made by a stream.
    PaymentMade(u64, u64, u64),
    /// A payment was attempted and refused by the ledger.
    PaymentFailed(u64, u64, u64, TransferError),
}

/// Configuration constants of a deployment.
#[derive(Clone, Copy, PartialEq, Eq, Structural, Debug)]
pub struct Config {
    /// The maximum number of streams per account.
    pub max_streams: u32,
    /// The survival policy handed to the ledger on every settlement transfer.
    pub survival_policy: SurvivalPolicy,
}

/// Cost report of one tick: how many streams were retired as exhausted and
/// how many transfers were attempted. A host may price a tick by these.
#[derive(Clone, Copy, PartialEq, Eq, Structural, Debug)]
pub struct TickReport {
    pub exhausted_count: u32,
    pub transfer_count: u32,
}

} // verus!
