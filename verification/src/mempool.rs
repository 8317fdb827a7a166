use vstd::prelude::*;

use crate::digest::keccak_of;
use crate::error::{MempoolError, StoreError};
use crate::primitives::{H256, U256};
use crate::store::{spec_header_lookup, spec_pool_lookup, Store};
use crate::types::{
    spec_tx_preimage, tx_eqv, BlockHeader, ChainConfig, Transaction, MAX_INITCODE_SIZE,
};

verus! {

/// Gas cost for each non-zero byte of transaction data.
pub const TX_DATA_NON_ZERO_GAS: u64 = 68;

/// Gas cost for each non-zero byte of transaction data after the
/// Istanbul repricing.
pub const TX_DATA_NON_ZERO_GAS_EIP2028: u64 = 16;

/// Minimum base fee a blob transaction may name per unit of blob gas.
pub const MIN_BASE_FEE_PER_BLOB_GAS: u64 = 1;

/// Base gas cost of a plain transaction.
pub const TX_GAS_COST: u64 = 21000;

/// Base gas cost of a contract-creating transaction.
pub const TX_CREATE_GAS_COST: u64 = 53000;

/// Gas cost for each zero byte of transaction data.
pub const TX_DATA_ZERO_GAS_COST: u64 = 4;

/// Gas cost for each 32-byte word of init code.
pub const TX_INIT_CODE_WORD_GAS_COST: u64 = 2;

/// Gas cost for each account named in the access list.
pub const TX_ACCESS_LIST_ADDRESS_GAS: u64 = 2400;

/// Gas cost for each storage key named in the access list.
pub const TX_ACCESS_LIST_STORAGE_KEY_GAS: u64 = 1900;

/// How many bytes of a byte string are not zero.
pub open spec fn spec_nonzero_count(data: Seq<u8>) -> int
    decreases data.len(),
{
    if data.len() == 0 {
        0
    } else {
        spec_nonzero_count(data.drop_last()) + if data.last() != 0 {
            1int
        } else {
            0int
        }
    }
}

/// Total number of storage keys across an access list.
pub open spec fn spec_storage_keys_count(
    al: Seq<(crate::primitives::Address, Vec<H256>)>,
) -> int
    decreases al.len(),
{
    if al.len() == 0 {
        0
    } else {
        spec_storage_keys_count(al.drop_last()) + al.last().1@.len()
    }
}

/// The exact metadata gas a transaction owes, as a mathematical number:
/// the base cost, the per-byte data costs, the init-code word cost when
/// Shanghai is active on a creation, and the access-list costs.
pub open spec fn spec_intrinsic_gas(tx: Transaction, header: BlockHeader, config: ChainConfig) -> int {
    let base: int = if tx.spec_is_contract_creation() {
        TX_CREATE_GAS_COST as int
    } else {
        TX_GAS_COST as int
    };
    let data = tx.spec_data();
    let nz = spec_nonzero_count(data);
    let nz_cost: int = if config.spec_is_istanbul_activated(header.number) {
        TX_DATA_NON_ZERO_GAS_EIP2028 as int
    } else {
        TX_DATA_NON_ZERO_GAS as int
    };
    let data_gas: int = if data.len() > 0 {
        nz * nz_cost + (data.len() - nz) * TX_DATA_ZERO_GAS_COST + (
        if tx.spec_is_contract_creation() && config.spec_is_shanghai_activated(header.timestamp) {
            ((data.len() + 31) / 32) * TX_INIT_CODE_WORD_GAS_COST
        } else {
            0int
        })
    } else {
        0int
    };
    base + data_gas + tx.spec_access_list().len() * TX_ACCESS_LIST_ADDRESS_GAS
        + spec_storage_keys_count(tx.spec_access_list()) * TX_ACCESS_LIST_STORAGE_KEY_GAS
}

/// Bounds under which the gas computation's multiplications stay inside
/// a machine word (beyond them the reference behaviour is a panic).
pub open spec fn spec_intrinsic_gas_bounds(tx: Transaction) -> bool {
    let data = tx.spec_data();
    let al = tx.spec_access_list();
    &&& spec_nonzero_count(data) * TX_DATA_NON_ZERO_GAS <= u64::MAX
    &&& (data.len() - spec_nonzero_count(data)) * TX_DATA_ZERO_GAS_COST <= u64::MAX
    &&& data.len() + 31 <= u64::MAX
    &&& ((data.len() + 31) / 32) * TX_INIT_CODE_WORD_GAS_COST <= u64::MAX
    &&& al.len() * TX_ACCESS_LIST_ADDRESS_GAS <= u64::MAX
    &&& spec_storage_keys_count(al) <= u64::MAX
    &&& spec_storage_keys_count(al) * TX_ACCESS_LIST_STORAGE_KEY_GAS <= u64::MAX
}

/// Count the non-zero bytes of `data`.
fn nonzero_count(data: &Vec<u8>) -> (r: u64)
    requires
        data@.len() <= u64::MAX,
    ensures
        r == spec_nonzero_count(data@),
        r <= data@.len(),
{
    let mut count: u64 = 0;
    let mut i: usize = 0;
    while i < data.len()
        invariant
            i <= data@.len(),
            data@.len() <= u64::MAX,
            count == spec_nonzero_count(data@.take(i as int)),
            count <= i,
        decreases data@.len() - i,
    {
        proof {
            assert(data@.take(i + 1).drop_last() =~= data@.take(i as int));
            assert(data@.take(i + 1).last() == data@[i as int]);
        }
        if data[i] != 0 {
            count = count + 1;
        }
        i = i + 1;
    }
    proof {
        assert(data@.take(data@.len() as int) =~= data@);
    }
    count
}

/// Sum the storage-key counts of an access list.
fn storage_keys_count(al: &crate::types::AccessList) -> (r: Result<u64, MempoolError>)
    ensures
        spec_storage_keys_count(al@) <= u64::MAX ==> (r matches Ok(k) && k
            == spec_storage_keys_count(al@)),
        spec_storage_keys_count(al@) > u64::MAX ==> r == Err::<u64, MempoolError>(
            MempoolError::TxGasOverflowError,
        ),
{
    let mut total: u64 = 0;
    let mut i: usize = 0;
    while i < al.len()
        invariant
            i <= al@.len(),
            total == spec_storage_keys_count(al@.take(i as int)),
        decreases al@.len() - i,
    {
        proof {
            assert(al@.take(i + 1).drop_last() =~= al@.take(i as int));
            assert(al@.take(i + 1).last() == al@[i as int]);
        }
        let keys = al[i].1.len() as u64;
        if total > u64::MAX - keys {
            proof {
                lemma_storage_keys_count_monotone(al@, i + 1, al@.len() as int);
                assert(al@.take(al@.len() as int) =~= al@);
            }
            return Err(MempoolError::TxGasOverflowError);
        }
        total = total + keys;
        i = i + 1;
    }
    proof {
        assert(al@.take(al@.len() as int) =~= al@);
    }
    Ok(total)
}

/// Prefix sums of key counts only grow.
proof fn lemma_storage_keys_count_monotone(
    al: Seq<(crate::primitives::Address, Vec<H256>)>,
    i: int,
    j: int,
)
    requires
        0 <= i <= j <= al.len(),
    ensures
        spec_storage_keys_count(al.take(i)) <= spec_storage_keys_count(al.take(j)),
    decreases j - i,
{
    if i < j {
        lemma_storage_keys_count_monotone(al, i, j - 1);
        assert(al.take(j).drop_last() =~= al.take(j - 1));
        assert(spec_storage_keys_count(al.take(j)) >= spec_storage_keys_count(al.take(j - 1)));
    }
}

/// The metadata gas a transaction owes: the exact formula when it fits
/// a machine word, an overflow error when it does not.
pub fn transaction_intrinsic_gas(
    tx: &Transaction,
    header: &BlockHeader,
    config: &ChainConfig,
) -> (r: Result<u64, MempoolError>)
    requires
        spec_intrinsic_gas_bounds(*tx),
    ensures
        spec_intrinsic_gas(*tx, *header, *config) <= u64::MAX ==> (r matches Ok(g) && g
            == spec_intrinsic_gas(*tx, *header, *config)),
        spec_intrinsic_gas(*tx, *header, *config) > u64::MAX ==> r == Err::<u64, MempoolError>(
            MempoolError::TxGasOverflowError,
        ),
{
    let is_contract_creation = tx.is_contract_creation();

    let base: u64 = if is_contract_creation {
        TX_CREATE_GAS_COST
    } else {
        TX_GAS_COST
    };

    let data_len = tx.data().len() as u64;

    let non_zero_gas_cost = if config.is_istanbul_activated(header.number) {
        TX_DATA_NON_ZERO_GAS_EIP2028
    } else {
        TX_DATA_NON_ZERO_GAS
    };
    let non_zero_count = nonzero_count(tx.data());
    proof {
        assert(non_zero_count * non_zero_gas_cost <= spec_nonzero_count(tx.spec_data())
            * TX_DATA_NON_ZERO_GAS) by (nonlinear_arith)
            requires
                non_zero_count == spec_nonzero_count(tx.spec_data()),
                non_zero_gas_cost <= TX_DATA_NON_ZERO_GAS,
                non_zero_count >= 0,
        ;
    }
    let term_nonzero: u64 = non_zero_count * non_zero_gas_cost;
    let zero_count = data_len - non_zero_count;
    let term_zero: u64 = zero_count * TX_DATA_ZERO_GAS_COST;
    let len_in_words: u64 = if data_len > u64::MAX - 31 {
        u64::MAX / 32
    } else {
        (data_len + 31) / 32
    };
    let term_words: u64 = if is_contract_creation && config.is_shanghai_activated(
        header.timestamp,
    ) {
        len_in_words * TX_INIT_CODE_WORD_GAS_COST
    } else {
        0
    };
    let storage_keys = match storage_keys_count(tx.access_list()) {
        Ok(k) => k,
        Err(e) => {
            proof {
                assert(false);
            }
            return Err(e);
        },
    };
    let term_al: u64 = tx.access_list().len() as u64 * TX_ACCESS_LIST_ADDRESS_GAS;
    proof {
        assert(storage_keys == spec_storage_keys_count(tx.spec_access_list()));
    }
    let term_keys: u64 = storage_keys * TX_ACCESS_LIST_STORAGE_KEY_GAS;

    proof {
        let data = tx.spec_data();
        let nz = spec_nonzero_count(data);
        let nz_cost: int = if config.spec_is_istanbul_activated(header.number) {
            TX_DATA_NON_ZERO_GAS_EIP2028 as int
        } else {
            TX_DATA_NON_ZERO_GAS as int
        };
        assert(term_nonzero == nz * nz_cost);
        assert(term_zero == (data.len() - nz) * TX_DATA_ZERO_GAS_COST);
        assert(len_in_words == (data.len() + 31) / 32);
        assert(term_words == (
        if tx.spec_is_contract_creation() && config.spec_is_shanghai_activated(header.timestamp) {
            ((data.len() + 31) / 32) * TX_INIT_CODE_WORD_GAS_COST
        } else {
            0int
        }));
        assert(term_al == tx.spec_access_list().len() * TX_ACCESS_LIST_ADDRESS_GAS);
        assert(term_keys == spec_storage_keys_count(tx.spec_access_list())
            * TX_ACCESS_LIST_STORAGE_KEY_GAS);
        if data.len() == 0 {
            assert(nz == 0);
            assert(term_nonzero == 0 && term_zero == 0) by (nonlinear_arith)
                requires
                    term_nonzero == 0 * nz_cost && term_zero == 0int * TX_DATA_ZERO_GAS_COST,
            ;
            assert(len_in_words == 0);
            assert(term_words == 0) by (nonlinear_arith)
                requires
                    term_words == 0int * TX_INIT_CODE_WORD_GAS_COST || term_words == 0,
            ;
        }
        assert(spec_intrinsic_gas(*tx, *header, *config) == base + term_nonzero + term_zero
            + term_words + term_al + term_keys);
    }

    let mut gas: u64 = base;
    if data_len > 0 {
        gas = match gas.checked_add(term_nonzero) {
            Some(g) => g,
            None => {
                return Err(MempoolError::TxGasOverflowError);
            },
        };
        gas = match gas.checked_add(term_zero) {
            Some(g) => g,
            None => {
                return Err(MempoolError::TxGasOverflowError);
            },
        };
        gas = match gas.checked_add(term_words) {
            Some(g) => g,
            None => {
                return Err(MempoolError::TxGasOverflowError);
            },
        };
    }
    gas = match gas.checked_add(term_al) {
        Some(g) => g,
        None => {
            return Err(MempoolError::TxGasOverflowError);
        },
    };
    gas = match gas.checked_add(term_keys) {
        Some(g) => g,
        None => {
            return Err(MempoolError::TxGasOverflowError);
        },
    };

    Ok(gas)
}

/// The verdict admission control reaches on a transaction against the
/// chain state in the store, in the order the checks run.
pub open spec fn spec_validate(tx: Transaction, store: Store) -> Result<(), MempoolError> {
    if store.latest_block_number is None {
        Err(MempoolError::NoBlockHeaderError)
    } else if spec_header_lookup(store.headers@, store.latest_block_number->Some_0) is None {
        Err(MempoolError::NoBlockHeaderError)
    } else if store.chain_config is None {
        Err(MempoolError::StoreError(StoreError::NotFound))
    } else {
        let header = spec_header_lookup(store.headers@, store.latest_block_number->Some_0)->Some_0;
        let config = store.chain_config->Some_0;
        if config.spec_is_shanghai_activated(header.timestamp) && tx.spec_is_contract_creation()
            && tx.spec_data().len() > MAX_INITCODE_SIZE {
            Err(MempoolError::TxMaxInitCodeSizeError)
        } else if header.gas_limit < tx.spec_gas_limit() {
            Err(MempoolError::TxGasLimitExceededError)
        } else if (match tx.spec_max_priority_fee() {
            Some(f) => f,
            None => 0,
        }) > (match tx.spec_max_fee_per_gas() {
            Some(f) => f,
            None => 0,
        }) {
            Err(MempoolError::TxTipAboveFeeCapError)
        } else if spec_intrinsic_gas(tx, header, config) > u64::MAX {
            Err(MempoolError::TxGasOverflowError)
        } else if (tx.spec_gas_limit() as int) < spec_intrinsic_gas(tx, header, config) {
            Err(MempoolError::TxIntrinsicGasCostAboveLimitError)
        } else if (match tx.spec_max_fee_per_blob_gas() {
            Some(fee) => fee.value() < MIN_BASE_FEE_PER_BLOB_GAS,
            None => false,
        }) {
            Err(MempoolError::TxBlobBaseFeeTooLowError)
        } else {
            Ok(())
        }
    }
}

/// Hold a transaction against the chain state: init-code size, block gas
/// limit, fee ordering, intrinsic gas and blob base fee, in that order.
pub fn validate_transaction(tx: &Transaction, store: &Store) -> (r: Result<(), MempoolError>)
    requires
        spec_intrinsic_gas_bounds(*tx),
    ensures
        r == spec_validate(*tx, *store),
{
    let header_no = match store.get_latest_block_number() {
        Ok(Some(n)) => n,
        Ok(None) => {
            return Err(MempoolError::NoBlockHeaderError);
        },
        Err(_) => {
            proof {
                assert(false);
            }
            return Err(MempoolError::NoBlockHeaderError);
        },
    };
    let header = match store.get_block_header(header_no) {
        Ok(Some(h)) => h,
        Ok(None) => {
            return Err(MempoolError::NoBlockHeaderError);
        },
        Err(_) => {
            proof {
                assert(false);
            }
            return Err(MempoolError::NoBlockHeaderError);
        },
    };
    let config = match store.get_chain_config() {
        Ok(c) => c,
        Err(e) => {
            return Err(MempoolError::StoreError(e));
        },
    };

    if config.is_shanghai_activated(header.timestamp) && tx.is_contract_creation()
        && tx.data().len() > MAX_INITCODE_SIZE {
        return Err(MempoolError::TxMaxInitCodeSizeError);
    }

    if header.gas_limit < tx.gas_limit() {
        return Err(MempoolError::TxGasLimitExceededError);
    }

    let priority_fee = match tx.max_priority_fee() {
        Some(f) => f,
        None => 0,
    };
    let fee_cap = match tx.max_fee_per_gas() {
        Some(f) => f,
        None => 0,
    };
    if priority_fee > fee_cap {
        return Err(MempoolError::TxTipAboveFeeCapError);
    }

    let intrinsic = match transaction_intrinsic_gas(tx, &header, &config) {
        Ok(g) => g,
        Err(e) => {
            return Err(e);
        },
    };
    if tx.gas_limit() < intrinsic {
        return Err(MempoolError::TxIntrinsicGasCostAboveLimitError);
    }

    match tx.max_fee_per_blob_gas() {
        Some(fee) => {
            if fee.lt(&U256::from_u64(MIN_BASE_FEE_PER_BLOB_GAS)) {
                return Err(MempoolError::TxBlobBaseFeeTooLowError);
            }
        },
        None => {},
    }

    Ok(())
}

/// Validate a transaction and, if it passes, add it to the pool under
/// its content digest, which is returned.
pub fn add_transaction(transaction: Transaction, store: &mut Store) -> (r: Result<
    H256,
    MempoolError,
>)
    requires
        spec_intrinsic_gas_bounds(transaction),
    ensures
        spec_validate(transaction, *old(store)) matches Err(e) ==> r == Err::<H256, MempoolError>(
            e,
        ) && final(store).pool@ == old(store).pool@,
        spec_validate(transaction, *old(store)) is Ok ==> (r matches Ok(h) && h.bytes@
            == keccak_of(spec_tx_preimage(transaction))) && final(store).pool@.len() == old(
            store,
        ).pool@.len() + 1 && final(store).pool@.take(old(store).pool@.len() as int) == old(
            store,
        ).pool@ && final(store).pool@.last().0.bytes@ == keccak_of(spec_tx_preimage(transaction))
            && final(store).pool@.last().1 == transaction,
{
    match validate_transaction(&transaction, store) {
        Ok(_) => {},
        Err(e) => {
            return Err(e);
        },
    }

    let hash = transaction.compute_hash();
    let hash_copy = H256 { bytes: crate::nibble::clone_bytes(&hash.bytes) };

    match store.add_transaction_to_pool(hash_copy, transaction) {
        Ok(_) => {},
        Err(_) => {
            proof {
                assert(false);
            }
            return Err(MempoolError::NoBlockHeaderError);
        },
    }

    Ok(hash)
}

/// Fetch a pooled transaction by its content digest.
pub fn get_transaction(hash: H256, store: &Store) -> (r: Result<Option<Transaction>, MempoolError>)
    ensures
        r matches Ok(opt) && (match (opt, spec_pool_lookup(store.pool@, hash.bytes@)) {
            (Some(found), Some(stored)) => tx_eqv(found, stored),
            (None, None) => true,
            _ => false,
        }),
{
    match store.get_transaction_from_pool(hash) {
        Ok(t) => Ok(t),
        Err(e) => {
            proof {
                assert(false);
            }
            Err(MempoolError::StoreError(e))
        },
    }
}

} // verus!
