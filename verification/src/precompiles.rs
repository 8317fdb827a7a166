use vstd::prelude::*;

use crate::digest::{ripemd160, ripemd160_of, sha256, sha256_of};
use crate::primitives::Address;

verus! {

pub const SHA2_256_ADDRESS: u64 = 0x02;

pub const RIPEMD_160_ADDRESS: u64 = 0x03;

pub const IDENTITY_ADDRESS: u64 = 0x04;

pub const SHA2_256_STATIC_COST: u64 = 60;

pub const RIPEMD_160_STATIC_COST: u64 = 600;

pub const IDENTITY_STATIC_COST: u64 = 15;

pub const RIPEMD_OUTPUT_LEN: usize = 32;

pub const RIPEMD_PADDING_LEN: usize = 12;

pub const SUCCESS_FOR_CALL: i32 = 1;

pub const REVERT_FOR_CALL: i32 = 0;

#[derive(Debug, PartialEq, Eq, Structural)]
pub enum PrecompileError {
    InvalidCalldata,
    NotEnoughGas,
    Secp256k1Error,
    InvalidEcPoint,
}

/// Input length rounded up to 32-byte words.
pub open spec fn spec_data_word_size(len: int) -> int {
    (len + 31) / 32
}

pub fn data_word_size(len: u64) -> (words: u64)
    requires
        len + 31 <= u64::MAX,
    ensures
        words == spec_data_word_size(len as int),
{
    (len + 31) / 32
}

pub open spec fn spec_identity_cost(len: int) -> int {
    IDENTITY_STATIC_COST + spec_data_word_size(len) * 3
}

pub open spec fn spec_sha2_256_cost(len: int) -> int {
    SHA2_256_STATIC_COST + spec_data_word_size(len) * 12
}

pub open spec fn spec_ripemd_160_cost(len: int) -> int {
    RIPEMD_160_STATIC_COST + spec_data_word_size(len) * 120
}

pub fn identity_dynamic_cost(len: u64) -> (cost: u64)
    requires
        len + 31 <= u64::MAX,
        spec_data_word_size(len as int) * 3 <= u64::MAX,
    ensures
        cost == spec_data_word_size(len as int) * 3,
{
    data_word_size(len) * 3
}

pub fn sha2_256_dynamic_cost(len: u64) -> (cost: u64)
    requires
        len + 31 <= u64::MAX,
        spec_data_word_size(len as int) * 12 <= u64::MAX,
    ensures
        cost == spec_data_word_size(len as int) * 12,
{
    data_word_size(len) * 12
}

pub fn ripemd_160_dynamic_cost(len: u64) -> (cost: u64)
    requires
        len + 31 <= u64::MAX,
        spec_data_word_size(len as int) * 120 <= u64::MAX,
    ensures
        cost == spec_data_word_size(len as int) * 120,
{
    data_word_size(len) * 120
}

/// The 32-byte output of the RIPEMD-160 precompile: the 20-byte digest
/// right-aligned behind 12 zero bytes.
pub open spec fn spec_ripemd_output(data: Seq<u8>) -> Seq<u8> {
    Seq::new(12, |i: int| 0u8) + ripemd160_of(data)
}

/// Copies its input to its output.
pub fn identity(calldata: &Vec<u8>, gas_limit: u64, consumed_gas: &mut u64) -> (r: Result<
    Vec<u8>,
    PrecompileError,
>)
    requires
        calldata@.len() + 31 <= u64::MAX,
        *old(consumed_gas) + spec_identity_cost(calldata@.len() as int) <= u64::MAX,
    ensures
        gas_limit < spec_identity_cost(calldata@.len() as int) ==> r == Err::<
            Vec<u8>,
            PrecompileError,
        >(PrecompileError::NotEnoughGas) && *final(consumed_gas) == *old(consumed_gas),
        gas_limit >= spec_identity_cost(calldata@.len() as int) ==> (r matches Ok(out)
            && out@ == calldata@) && *final(consumed_gas) == *old(consumed_gas) + spec_identity_cost(
            calldata@.len() as int,
        ),
{
    let gas_cost = IDENTITY_STATIC_COST + identity_dynamic_cost(calldata.len() as u64);
    if gas_limit < gas_cost {
        return Err(PrecompileError::NotEnoughGas);
    }
    *consumed_gas = *consumed_gas + gas_cost;
    Ok(calldata.clone())
}

/// Hashes its input with SHA-256.
pub fn sha2_256(calldata: &Vec<u8>, gas_limit: u64, consumed_gas: &mut u64) -> (r: Result<
    Vec<u8>,
    PrecompileError,
>)
    requires
        calldata@.len() + 31 <= u64::MAX,
        *old(consumed_gas) + spec_sha2_256_cost(calldata@.len() as int) <= u64::MAX,
    ensures
        gas_limit < spec_sha2_256_cost(calldata@.len() as int) ==> r == Err::<
            Vec<u8>,
            PrecompileError,
        >(PrecompileError::NotEnoughGas) && *final(consumed_gas) == *old(consumed_gas),
        gas_limit >= spec_sha2_256_cost(calldata@.len() as int) ==> (r matches Ok(out)
            && out@ == sha256_of(calldata@)) && *final(consumed_gas) == *old(consumed_gas)
            + spec_sha2_256_cost(calldata@.len() as int),
{
    let gas_cost = SHA2_256_STATIC_COST + sha2_256_dynamic_cost(calldata.len() as u64);
    if gas_limit < gas_cost {
        return Err(PrecompileError::NotEnoughGas);
    }
    *consumed_gas = *consumed_gas + gas_cost;
    let hash = sha256(calldata);
    Ok(hash)
}

/// Hashes its input with RIPEMD-160; the 20-byte digest comes back
/// right-aligned in 32 bytes.
pub fn ripemd_160(calldata: &Vec<u8>, gas_limit: u64, consumed_gas: &mut u64) -> (r: Result<
    Vec<u8>,
    PrecompileError,
>)
    requires
        calldata@.len() + 31 <= u64::MAX,
        *old(consumed_gas) + spec_ripemd_160_cost(calldata@.len() as int) <= u64::MAX,
    ensures
        gas_limit < spec_ripemd_160_cost(calldata@.len() as int) ==> r == Err::<
            Vec<u8>,
            PrecompileError,
        >(PrecompileError::NotEnoughGas) && *final(consumed_gas) == *old(consumed_gas),
        gas_limit >= spec_ripemd_160_cost(calldata@.len() as int) ==> (r matches Ok(out)
            && out@ == spec_ripemd_output(calldata@)) && *final(consumed_gas) == *old(consumed_gas)
            + spec_ripemd_160_cost(calldata@.len() as int),
{
    let gas_cost = RIPEMD_160_STATIC_COST + ripemd_160_dynamic_cost(calldata.len() as u64);
    if gas_limit < gas_cost {
        return Err(PrecompileError::NotEnoughGas);
    }
    *consumed_gas = *consumed_gas + gas_cost;
    let digest = ripemd160(calldata);
    let mut output: Vec<u8> = Vec::new();
    let mut i: usize = 0;
    while i < RIPEMD_PADDING_LEN
        invariant
            i <= 12,
            output@.len() == i,
            forall|j: int| 0 <= j < i ==> output@[j] == 0u8,
        decreases 12 - i,
    {
        output.push(0u8);
        i = i + 1;
    }
    let mut k: usize = 0;
    while k < digest.len()
        invariant
            k <= digest@.len(),
            digest@ == ripemd160_of(calldata@),
            digest@.len() == 20,
            output@.len() == 12 + k,
            forall|j: int| 0 <= j < 12 ==> output@[j] == 0u8,
            forall|j: int| 12 <= j < 12 + k ==> output@[j] == digest@[j - 12],
        decreases digest@.len() - k,
    {
        output.push(digest[k]);
        k = k + 1;
    }
    proof {
        assert(output@ =~= spec_ripemd_output(calldata@));
    }
    Ok(output)
}

/// True when the address is one of the three precompiles served here.
pub open spec fn spec_is_supported_precompile(addr: Address) -> bool {
    ||| addr.bytes@ == Address::spec_low_u64_be(SHA2_256_ADDRESS)
    ||| addr.bytes@ == Address::spec_low_u64_be(RIPEMD_160_ADDRESS)
    ||| addr.bytes@ == Address::spec_low_u64_be(IDENTITY_ADDRESS)
}

/// Gas charged by the precompile at `addr` on `len` input bytes.
pub open spec fn spec_precompile_cost(addr: Address, len: int) -> int {
    if addr.bytes@ == Address::spec_low_u64_be(SHA2_256_ADDRESS) {
        spec_sha2_256_cost(len)
    } else if addr.bytes@ == Address::spec_low_u64_be(RIPEMD_160_ADDRESS) {
        spec_ripemd_160_cost(len)
    } else {
        spec_identity_cost(len)
    }
}

/// Output of the precompile at `addr` on input `data`.
pub open spec fn spec_precompile_output(addr: Address, data: Seq<u8>) -> Seq<u8> {
    if addr.bytes@ == Address::spec_low_u64_be(SHA2_256_ADDRESS) {
        sha256_of(data)
    } else if addr.bytes@ == Address::spec_low_u64_be(RIPEMD_160_ADDRESS) {
        spec_ripemd_output(data)
    } else {
        data
    }
}

/// Dispatches to the precompile at `callee_address`; on any precompile
/// error the call reverts and all gas handed to it is consumed.
pub fn execute_precompile(
    callee_address: Address,
    calldata: Vec<u8>,
    gas_to_send: u64,
    consumed_gas: &mut u64,
) -> (r: (i32, Vec<u8>))
    requires
        spec_is_supported_precompile(callee_address),
        calldata@.len() + 31 <= u64::MAX,
        *old(consumed_gas) + spec_precompile_cost(callee_address, calldata@.len() as int)
            <= u64::MAX,
        *old(consumed_gas) + gas_to_send <= u64::MAX,
    ensures
        gas_to_send >= spec_precompile_cost(callee_address, calldata@.len() as int) ==> r.0
            == SUCCESS_FOR_CALL && r.1@ == spec_precompile_output(callee_address, calldata@)
            && *final(consumed_gas) == *old(consumed_gas) + spec_precompile_cost(
            callee_address,
            calldata@.len() as int,
        ),
        gas_to_send < spec_precompile_cost(callee_address, calldata@.len() as int) ==> r.0
            == REVERT_FOR_CALL && r.1@.len() == 0 && *final(consumed_gas) == *old(consumed_gas)
            + gas_to_send,
{
    let result = if callee_address.same_as(&Address::from_low_u64_be(SHA2_256_ADDRESS)) {
        sha2_256(&calldata, gas_to_send, consumed_gas)
    } else if callee_address.same_as(&Address::from_low_u64_be(RIPEMD_160_ADDRESS)) {
        ripemd_160(&calldata, gas_to_send, consumed_gas)
    } else {
        identity(&calldata, gas_to_send, consumed_gas)
    };
    match result {
        Ok(res) => (SUCCESS_FOR_CALL, res),
        Err(_) => {
            *consumed_gas = *consumed_gas + gas_to_send;
            (REVERT_FOR_CALL, Vec::new())
        },
    }
}

} // verus!
