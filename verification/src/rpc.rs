use vstd::prelude::*;

use crate::error::RpcErr;
use crate::primitives::{Address, U256};
use crate::store::Store;

verus! {

/// How a query names a block: outright, or by a symbolic tag.
#[derive(Debug, Clone, Copy)]
pub enum BlockIdentifier {
    Number(u64),
    Earliest,
    Latest,
    Pending,
}

impl BlockIdentifier {
    /// The block number an identifier stands for against the store.
    pub open spec fn spec_resolve(self, storage: Store) -> Option<u64> {
        match self {
            BlockIdentifier::Number(n) => Some(n),
            BlockIdentifier::Earliest => Some(0u64),
            BlockIdentifier::Latest => storage.latest_block_number,
            BlockIdentifier::Pending => storage.latest_block_number,
        }
    }

    pub fn resolve_block_number(&self, storage: &Store) -> (r: Result<
        Option<u64>,
        crate::error::StoreError,
    >)
        ensures
            r matches Ok(v) && v == self.spec_resolve(*storage),
    {
        match self {
            BlockIdentifier::Number(n) => Ok(Some(*n)),
            BlockIdentifier::Earliest => Ok(Some(0)),
            BlockIdentifier::Latest => Ok(storage.latest_block_number),
            BlockIdentifier::Pending => Ok(storage.latest_block_number),
        }
    }
}

/// A request for logs over a block range, with optional address and
/// topic filters, as plain values.
#[derive(Debug)]
pub struct LogsRequest {
    /// The oldest block from which to start retrieving logs.
    pub from: BlockIdentifier,
    /// Up to which block to stop retrieving logs.
    pub to: BlockIdentifier,
    /// The addresses from where the logs origin from.
    pub address: Option<Vec<Address>>,
    /// Which topics to filter.
    pub topics: Option<Vec<U256>>,
}

impl LogsRequest {
    /// The decision at a request's core: which concrete block range it
    /// covers, or that its bounds cannot be resolved.
    pub fn resolve_range(&self, storage: &Store) -> (r: Result<(u64, u64), RpcErr>)
        ensures
            (self.from.spec_resolve(*storage) matches Some(f) && (self.to.spec_resolve(*storage)
                matches Some(t) && r == Ok::<(u64, u64), RpcErr>((f, t)))) || ((
            self.from.spec_resolve(*storage) is None || self.to.spec_resolve(*storage) is None)
                && r == Err::<(u64, u64), RpcErr>(RpcErr::BadParams)),
    {
        let from = match self.from.resolve_block_number(storage) {
            Ok(Some(f)) => f,
            _ => {
                return Err(RpcErr::BadParams);
            },
        };
        let to = match self.to.resolve_block_number(storage) {
            Ok(Some(t)) => t,
            _ => {
                return Err(RpcErr::BadParams);
            },
        };
        Ok((from, to))
    }
}

} // verus!
