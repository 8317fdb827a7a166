use vstd::prelude::*;

use crate::error::StoreError;
use crate::primitives::H256;
use crate::types::{tx_eqv, BlockHeader, ChainConfig, Transaction};

verus! {

/// Which backend a store runs on; only the in-memory engine lives here.
#[derive(Debug, Clone, Copy, PartialEq, Eq, Structural)]
pub enum EngineType {
    InMemory,
}

/// The chain data admission control consults, held as plain values:
/// fork schedule, block headers, the latest block number and the
/// transaction pool keyed by content digest.
#[derive(Debug)]
pub struct Store {
    pub chain_config: Option<ChainConfig>,
    pub headers: Vec<(u64, BlockHeader)>,
    pub latest_block_number: Option<u64>,
    pub pool: Vec<(H256, Transaction)>,
}

/// The most recently stored header under a number, if any.
pub open spec fn spec_header_lookup(headers: Seq<(u64, BlockHeader)>, number: u64) -> Option<
    BlockHeader,
>
    decreases headers.len(),
{
    if headers.len() == 0 {
        None
    } else if headers.last().0 == number {
        Some(headers.last().1)
    } else {
        spec_header_lookup(headers.drop_last(), number)
    }
}

/// The most recently pooled transaction under a digest, if any.
pub open spec fn spec_pool_lookup(pool: Seq<(H256, Transaction)>, hash: Seq<u8>) -> Option<
    Transaction,
>
    decreases pool.len(),
{
    if pool.len() == 0 {
        None
    } else if pool.last().0.bytes@ == hash {
        Some(pool.last().1)
    } else {
        spec_pool_lookup(pool.drop_last(), hash)
    }
}

impl Store {
    pub fn new(_path: &str, _engine: EngineType) -> (r: Result<Store, StoreError>)
        ensures
            r matches Ok(s) && s.chain_config is None && s.headers@.len() == 0
                && s.latest_block_number is None && s.pool@.len() == 0,
    {
        Ok(
            Store {
                chain_config: None,
                headers: Vec::new(),
                latest_block_number: None,
                pool: Vec::new(),
            },
        )
    }

    pub fn add_block_header(&mut self, number: u64, header: BlockHeader) -> (r: Result<
        (),
        StoreError,
    >)
        ensures
            r is Ok,
            final(self).headers@ == old(self).headers@.push((number, header)),
            final(self).chain_config == old(self).chain_config,
            final(self).latest_block_number == old(self).latest_block_number,
            final(self).pool@ == old(self).pool@,
    {
        self.headers.push((number, header));
        Ok(())
    }

    pub fn update_latest_block_number(&mut self, number: u64) -> (r: Result<(), StoreError>)
        ensures
            r is Ok,
            final(self).latest_block_number == Some(number),
            final(self).chain_config == old(self).chain_config,
            final(self).headers@ == old(self).headers@,
            final(self).pool@ == old(self).pool@,
    {
        self.latest_block_number = Some(number);
        Ok(())
    }

    pub fn set_chain_config(&mut self, config: &ChainConfig) -> (r: Result<(), StoreError>)
        ensures
            r is Ok,
            final(self).chain_config == Some(*config),
            final(self).headers@ == old(self).headers@,
            final(self).latest_block_number == old(self).latest_block_number,
            final(self).pool@ == old(self).pool@,
    {
        self.chain_config = Some(*config);
        Ok(())
    }

    pub fn get_latest_block_number(&self) -> (r: Result<Option<u64>, StoreError>)
        ensures
            r == Ok::<Option<u64>, StoreError>(self.latest_block_number),
    {
        Ok(self.latest_block_number)
    }

    pub fn get_block_header(&self, number: u64) -> (r: Result<Option<BlockHeader>, StoreError>)
        ensures
            r == Ok::<Option<BlockHeader>, StoreError>(
                spec_header_lookup(self.headers@, number),
            ),
    {
        let mut i: usize = self.headers.len();
        proof {
            assert(self.headers@.take(self.headers@.len() as int) =~= self.headers@);
        }
        while i > 0
            invariant
                i <= self.headers@.len(),
                spec_header_lookup(self.headers@, number) == spec_header_lookup(
                    self.headers@.take(i as int),
                    number,
                ),
            decreases i,
        {
            i = i - 1;
            let entry = &self.headers[i];
            if entry.0 == number {
                proof {
                    assert(self.headers@.take(i + 1).last() == self.headers@[i as int]);
                }
                return Ok(Some(entry.1));
            }
            proof {
                assert(self.headers@.take(i + 1).last() == self.headers@[i as int]);
                assert(self.headers@.take(i + 1).drop_last() =~= self.headers@.take(i as int));
            }
        }
        proof {
            assert(self.headers@.take(0).len() == 0);
        }
        Ok(None)
    }

    pub fn get_chain_config(&self) -> (r: Result<ChainConfig, StoreError>)
        ensures
            self.chain_config matches Some(c) ==> r == Ok::<ChainConfig, StoreError>(c),
            self.chain_config is None ==> r == Err::<ChainConfig, StoreError>(
                StoreError::NotFound,
            ),
    {
        match &self.chain_config {
            Some(c) => Ok(*c),
            None => Err(StoreError::NotFound),
        }
    }

    pub fn add_transaction_to_pool(&mut self, hash: H256, transaction: Transaction) -> (r: Result<
        (),
        StoreError,
    >)
        ensures
            r is Ok,
            final(self).pool@ == old(self).pool@.push((hash, transaction)),
            final(self).chain_config == old(self).chain_config,
            final(self).headers@ == old(self).headers@,
            final(self).latest_block_number == old(self).latest_block_number,
    {
        self.pool.push((hash, transaction));
        Ok(())
    }

    pub fn get_transaction_from_pool(&self, hash: H256) -> (r: Result<
        Option<Transaction>,
        StoreError,
    >)
        ensures
            r matches Ok(opt) && (match (opt, spec_pool_lookup(self.pool@, hash.bytes@)) {
                (Some(found), Some(stored)) => tx_eqv(found, stored),
                (None, None) => true,
                _ => false,
            }),
    {
        let mut i: usize = self.pool.len();
        proof {
            assert(self.pool@.take(self.pool@.len() as int) =~= self.pool@);
        }
        while i > 0
            invariant
                i <= self.pool@.len(),
                spec_pool_lookup(self.pool@, hash.bytes@) == spec_pool_lookup(
                    self.pool@.take(i as int),
                    hash.bytes@,
                ),
            decreases i,
        {
            i = i - 1;
            let entry = &self.pool[i];
            proof {
                assert(self.pool@.take(i + 1).last() == self.pool@[i as int]);
                assert(self.pool@.take(i + 1).drop_last() =~= self.pool@.take(i as int));
            }
            if entry.0.same_as(&hash) {
                return Ok(Some(entry.1.duplicate()));
            }
        }
        proof {
            assert(self.pool@.take(0).len() == 0);
        }
        Ok(None)
    }
}

} // verus!
