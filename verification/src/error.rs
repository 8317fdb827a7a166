use vstd::prelude::*;

verus! {

/// Failure of the node store backing the trie: the only error the trie
/// core ever propagates (a missing key is a normal outcome, not an error).
#[derive(Debug, Clone, PartialEq, Eq, Structural)]
pub enum StoreError {
    NotFound,
}

/// Errors raised by the bytecode interpreter's data structures.
#[derive(Debug, Clone, Copy, PartialEq, Eq, Structural)]
pub enum VMError {
    StackUnderflow,
    StackOverflow,
}

/// Reasons a transaction is refused admission to the pool.
#[derive(Debug, Clone, PartialEq, Eq, Structural)]
pub enum MempoolError {
    NoBlockHeaderError,
    TxMaxInitCodeSizeError,
    TxGasLimitExceededError,
    TxTipAboveFeeCapError,
    TxIntrinsicGasCostAboveLimitError,
    TxBlobBaseFeeTooLowError,
    TxGasOverflowError,
    StoreError(StoreError),
}

/// Errors surfaced by the query layer.
#[derive(Debug, Clone, PartialEq, Eq, Structural)]
pub enum RpcErr {
    BadParams,
    Internal,
}

} // verus!
