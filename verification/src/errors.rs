//! The error kinds a relay operation can fail with. Every check fails fast
//! with a specific kind; no operation commits partial state on failure.

use vstd::prelude::*;

verus! {

#[derive(Clone, Copy, Debug, PartialEq, Eq, Structural)]
pub enum RelayError {
    /// A header buffer is not exactly 80 bytes.
    InvalidHeaderSize,
    /// The genesis height is zero.
    InvalidGenesisHeight,
    /// A header batch is malformed.
    InvalidHeaderBatch,
    /// A header with this hash is already stored.
    DuplicateBlock,
    /// The declared parent does not exist at the preceding height.
    PreviousBlockNotFound,
    /// The header's hash does not meet its own difficulty target.
    LowDifficulty,
    /// A period-start header declares a target the retarget rule refuses.
    IncorrectDifficultyTarget,
    /// The previous period's start and end targets are identical.
    InvalidDifficultyPeriod,
    /// The submitted block does not extend a known chain.
    NotChainExtension,
    /// No canonical block is recorded at the requested height.
    BlockNotFound,
    /// The block has fewer confirmations than the caller demands.
    InsufficientConfirmations,
    /// The merkle proof does not connect the transaction to the root.
    IncorrectMerkleProof,
    /// A transaction id is not exactly 32 bytes.
    InvalidTxId,
    /// A claimed block hash does not match the recomputed one.
    InvalidBlockHash,
    /// A division by zero was attempted.
    DivisionByZero,
    /// An arithmetic step overflowed or underflowed.
    ArithmeticError,
    /// The caller's expected counter does not match the relay's.
    InvalidCounter,
    /// The declared parent chain id does not match the recorded one.
    InvalidChainId,
    /// A fork record needed for the operation is missing or malformed.
    ForkNotFound,
}

} // verus!
