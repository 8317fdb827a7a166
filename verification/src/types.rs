use vstd::prelude::*;

use crate::digest::{keccak256, keccak_of};
use crate::nibble::clone_bytes;
use crate::primitives::{Address, H256, U256};

verus! {

/// Largest init code a contract-creating transaction may carry.
pub const MAX_INITCODE_SIZE: usize = 49152;

/// The fork-activation schedule the chain runs under.
#[derive(Debug, Clone, Copy)]
pub struct ChainConfig {
    pub shanghai_time: Option<u64>,
    pub istanbul_block: Option<u64>,
}

impl ChainConfig {
    pub open spec fn spec_is_shanghai_activated(self, timestamp: u64) -> bool {
        match self.shanghai_time {
            Some(t) => t <= timestamp,
            None => false,
        }
    }

    pub open spec fn spec_is_istanbul_activated(self, block_number: u64) -> bool {
        match self.istanbul_block {
            Some(b) => b <= block_number,
            None => false,
        }
    }

    pub fn is_shanghai_activated(&self, timestamp: u64) -> (r: bool)
        ensures
            r == self.spec_is_shanghai_activated(timestamp),
    {
        match self.shanghai_time {
            Some(t) => t <= timestamp,
            None => false,
        }
    }

    pub fn is_istanbul_activated(&self, block_number: u64) -> (r: bool)
        ensures
            r == self.spec_is_istanbul_activated(block_number),
    {
        match self.istanbul_block {
            Some(b) => b <= block_number,
            None => false,
        }
    }
}

impl Default for ChainConfig {
    fn default() -> (r: ChainConfig)
        ensures
            r.shanghai_time is None,
            r.istanbul_block is None,
    {
        ChainConfig { shanghai_time: None, istanbul_block: None }
    }
}

/// The header fields admission control reads.
#[derive(Debug, Clone, Copy)]
pub struct BlockHeader {
    pub number: u64,
    pub timestamp: u64,
    pub gas_limit: u64,
    pub gas_used: u64,
}

impl Default for BlockHeader {
    fn default() -> (r: BlockHeader)
        ensures
            r.number == 0 && r.timestamp == 0 && r.gas_limit == 0 && r.gas_used == 0,
    {
        BlockHeader { number: 0, timestamp: 0, gas_limit: 0, gas_used: 0 }
    }
}

/// Where a transaction is directed: a call to an account or a creation.
#[derive(Debug, Clone)]
pub enum TxKind {
    Call(Address),
    Create,
}

impl Default for TxKind {
    fn default() -> (r: TxKind)
        ensures
            r is Create,
    {
        TxKind::Create
    }
}

/// Accounts and storage keys a transaction declares it will touch.
pub type AccessList = Vec<(Address, Vec<H256>)>;

/// A fee-market transaction.
#[derive(Debug)]
pub struct EIP1559Transaction {
    pub nonce: u64,
    pub max_priority_fee_per_gas: u64,
    pub max_fee_per_gas: u64,
    pub gas_limit: u64,
    pub to: TxKind,
    pub value: U256,
    pub data: Vec<u8>,
    pub access_list: AccessList,
}

impl Default for EIP1559Transaction {
    fn default() -> (r: EIP1559Transaction)
        ensures
            r.nonce == 0 && r.max_priority_fee_per_gas == 0 && r.max_fee_per_gas == 0
                && r.gas_limit == 0,
            r.to is Create,
            r.value.value() == 0,
            r.data@.len() == 0,
            r.access_list@.len() == 0,
    {
        EIP1559Transaction {
            nonce: 0,
            max_priority_fee_per_gas: 0,
            max_fee_per_gas: 0,
            gas_limit: 0,
            to: TxKind::Create,
            value: U256::zero(),
            data: Vec::new(),
            access_list: Vec::new(),
        }
    }
}

/// A blob-carrying transaction.
#[derive(Debug)]
pub struct EIP4844Transaction {
    pub nonce: u64,
    pub max_priority_fee_per_gas: u64,
    pub max_fee_per_gas: u64,
    pub max_fee_per_blob_gas: U256,
    pub gas: u64,
    pub to: Address,
    pub value: U256,
    pub data: Vec<u8>,
    pub access_list: AccessList,
}

impl Default for EIP4844Transaction {
    fn default() -> (r: EIP4844Transaction)
        ensures
            r.nonce == 0 && r.max_priority_fee_per_gas == 0 && r.max_fee_per_gas == 0 && r.gas
                == 0,
            r.max_fee_per_blob_gas.value() == 0,
            r.value.value() == 0,
            r.data@.len() == 0,
            r.access_list@.len() == 0,
            r.to.wf(),
    {
        EIP4844Transaction {
            nonce: 0,
            max_priority_fee_per_gas: 0,
            max_fee_per_gas: 0,
            max_fee_per_blob_gas: U256::zero(),
            gas: 0,
            to: Address::default(),
            value: U256::zero(),
            data: Vec::new(),
            access_list: Vec::new(),
        }
    }
}

/// A pending transaction, in the shapes admission control handles.
#[derive(Debug)]
pub enum Transaction {
    EIP1559Transaction(EIP1559Transaction),
    EIP4844Transaction(EIP4844Transaction),
}

impl Transaction {
    pub open spec fn spec_is_contract_creation(self) -> bool {
        match self {
            Transaction::EIP1559Transaction(t) => t.to is Create,
            Transaction::EIP4844Transaction(_) => false,
        }
    }

    pub open spec fn spec_data(self) -> Seq<u8> {
        match self {
            Transaction::EIP1559Transaction(t) => t.data@,
            Transaction::EIP4844Transaction(t) => t.data@,
        }
    }

    pub open spec fn spec_gas_limit(self) -> u64 {
        match self {
            Transaction::EIP1559Transaction(t) => t.gas_limit,
            Transaction::EIP4844Transaction(t) => t.gas,
        }
    }

    pub open spec fn spec_max_priority_fee(self) -> Option<u64> {
        match self {
            Transaction::EIP1559Transaction(t) => Some(t.max_priority_fee_per_gas),
            Transaction::EIP4844Transaction(t) => Some(t.max_priority_fee_per_gas),
        }
    }

    pub open spec fn spec_max_fee_per_gas(self) -> Option<u64> {
        match self {
            Transaction::EIP1559Transaction(t) => Some(t.max_fee_per_gas),
            Transaction::EIP4844Transaction(t) => Some(t.max_fee_per_gas),
        }
    }

    pub open spec fn spec_max_fee_per_blob_gas(self) -> Option<U256> {
        match self {
            Transaction::EIP1559Transaction(_) => None,
            Transaction::EIP4844Transaction(t) => Some(t.max_fee_per_blob_gas),
        }
    }

    pub open spec fn spec_access_list(self) -> Seq<(Address, Vec<H256>)> {
        match self {
            Transaction::EIP1559Transaction(t) => t.access_list@,
            Transaction::EIP4844Transaction(t) => t.access_list@,
        }
    }

    pub fn is_contract_creation(&self) -> (r: bool)
        ensures
            r == self.spec_is_contract_creation(),
    {
        match self {
            Transaction::EIP1559Transaction(t) => matches!(t.to, TxKind::Create),
            Transaction::EIP4844Transaction(_) => false,
        }
    }

    pub fn data(&self) -> (r: &Vec<u8>)
        ensures
            r@ == self.spec_data(),
    {
        match self {
            Transaction::EIP1559Transaction(t) => &t.data,
            Transaction::EIP4844Transaction(t) => &t.data,
        }
    }

    pub fn gas_limit(&self) -> (r: u64)
        ensures
            r == self.spec_gas_limit(),
    {
        match self {
            Transaction::EIP1559Transaction(t) => t.gas_limit,
            Transaction::EIP4844Transaction(t) => t.gas,
        }
    }

    pub fn max_priority_fee(&self) -> (r: Option<u64>)
        ensures
            r == self.spec_max_priority_fee(),
    {
        match self {
            Transaction::EIP1559Transaction(t) => Some(t.max_priority_fee_per_gas),
            Transaction::EIP4844Transaction(t) => Some(t.max_priority_fee_per_gas),
        }
    }

    pub fn max_fee_per_gas(&self) -> (r: Option<u64>)
        ensures
            r == self.spec_max_fee_per_gas(),
    {
        match self {
            Transaction::EIP1559Transaction(t) => Some(t.max_fee_per_gas),
            Transaction::EIP4844Transaction(t) => Some(t.max_fee_per_gas),
        }
    }

    pub fn max_fee_per_blob_gas(&self) -> (r: Option<U256>)
        ensures
            r == self.spec_max_fee_per_blob_gas(),
    {
        match self {
            Transaction::EIP1559Transaction(_) => None,
            Transaction::EIP4844Transaction(t) => Some(t.max_fee_per_blob_gas),
        }
    }

    pub fn access_list(&self) -> (r: &AccessList)
        ensures
            r@ == self.spec_access_list(),
    {
        match self {
            Transaction::EIP1559Transaction(t) => &t.access_list,
            Transaction::EIP4844Transaction(t) => &t.access_list,
        }
    }

    pub fn nonce(&self) -> (r: u64)
        ensures
            r == (match *self {
                Transaction::EIP1559Transaction(t) => t.nonce,
                Transaction::EIP4844Transaction(t) => t.nonce,
            }),
    {
        match self {
            Transaction::EIP1559Transaction(t) => t.nonce,
            Transaction::EIP4844Transaction(t) => t.nonce,
        }
    }

    pub fn value(&self) -> (r: U256)
        ensures
            r == (match *self {
                Transaction::EIP1559Transaction(t) => t.value,
                Transaction::EIP4844Transaction(t) => t.value,
            }),
    {
        match self {
            Transaction::EIP1559Transaction(t) => t.value,
            Transaction::EIP4844Transaction(t) => t.value,
        }
    }

    /// A content key for the pool: the digest of a canonical byte
    /// rendering of every field. It stands for the network's transaction
    /// hash in this model.
    pub fn compute_hash(&self) -> (r: H256)
        ensures
            r.bytes@ == keccak_of(spec_tx_preimage(*self)),
            r.wf(),
    {
        let preimage = tx_preimage(self);
        H256 { bytes: keccak256(&preimage) }
    }

    pub fn duplicate(&self) -> (r: Transaction)
        ensures
            tx_eqv(r, *self),
    {
        match self {
            Transaction::EIP1559Transaction(t) => Transaction::EIP1559Transaction(
                EIP1559Transaction {
                    nonce: t.nonce,
                    max_priority_fee_per_gas: t.max_priority_fee_per_gas,
                    max_fee_per_gas: t.max_fee_per_gas,
                    gas_limit: t.gas_limit,
                    to: match &t.to {
                        TxKind::Call(a) => TxKind::Call(Address { bytes: clone_bytes(&a.bytes) }),
                        TxKind::Create => TxKind::Create,
                    },
                    value: t.value,
                    data: clone_bytes(&t.data),
                    access_list: duplicate_access_list(&t.access_list),
                },
            ),
            Transaction::EIP4844Transaction(t) => Transaction::EIP4844Transaction(
                EIP4844Transaction {
                    nonce: t.nonce,
                    max_priority_fee_per_gas: t.max_priority_fee_per_gas,
                    max_fee_per_gas: t.max_fee_per_gas,
                    max_fee_per_blob_gas: t.max_fee_per_blob_gas,
                    gas: t.gas,
                    to: Address { bytes: clone_bytes(&t.to.bytes) },
                    value: t.value,
                    data: clone_bytes(&t.data),
                    access_list: duplicate_access_list(&t.access_list),
                },
            ),
        }
    }
}

/// Sameness of two destinations up to views.
pub open spec fn txkind_eqv(a: TxKind, b: TxKind) -> bool {
    match (a, b) {
        (TxKind::Call(x), TxKind::Call(y)) => x.bytes@ == y.bytes@,
        (TxKind::Create, TxKind::Create) => true,
        _ => false,
    }
}

/// Sameness of two access lists up to views.
pub open spec fn access_list_eqv(a: Seq<(Address, Vec<H256>)>, b: Seq<(Address, Vec<H256>)>) -> bool {
    &&& a.len() == b.len()
    &&& forall|i: int|
        0 <= i < a.len() ==> (#[trigger] a[i]).0.bytes@ == b[i].0.bytes@ && a[i].1@.len()
            == b[i].1@.len() && (forall|j: int|
            0 <= j < a[i].1@.len() ==> (#[trigger] a[i].1@[j]).bytes@ == b[i].1@[j].bytes@)
}

/// Sameness of two transactions up to views.
pub open spec fn tx_eqv(a: Transaction, b: Transaction) -> bool {
    match (a, b) {
        (Transaction::EIP1559Transaction(x), Transaction::EIP1559Transaction(y)) => {
            &&& x.nonce == y.nonce
            &&& x.max_priority_fee_per_gas == y.max_priority_fee_per_gas
            &&& x.max_fee_per_gas == y.max_fee_per_gas
            &&& x.gas_limit == y.gas_limit
            &&& txkind_eqv(x.to, y.to)
            &&& x.value == y.value
            &&& x.data@ == y.data@
            &&& access_list_eqv(x.access_list@, y.access_list@)
        },
        (Transaction::EIP4844Transaction(x), Transaction::EIP4844Transaction(y)) => {
            &&& x.nonce == y.nonce
            &&& x.max_priority_fee_per_gas == y.max_priority_fee_per_gas
            &&& x.max_fee_per_gas == y.max_fee_per_gas
            &&& x.max_fee_per_blob_gas == y.max_fee_per_blob_gas
            &&& x.gas == y.gas
            &&& x.to.bytes@ == y.to.bytes@
            &&& x.value == y.value
            &&& x.data@ == y.data@
            &&& access_list_eqv(x.access_list@, y.access_list@)
        },
        _ => false,
    }
}

fn duplicate_access_list(al: &AccessList) -> (r: AccessList)
    ensures
        access_list_eqv(r@, al@),
{
    let mut out: AccessList = Vec::new();
    let mut i: usize = 0;
    while i < al.len()
        invariant
            i <= al@.len(),
            out@.len() == i,
            access_list_eqv(out@, al@.take(i as int)),
        decreases al@.len() - i,
    {
        let entry = &al[i];
        let mut keys: Vec<H256> = Vec::new();
        let mut j: usize = 0;
        while j < entry.1.len()
            invariant
                j <= entry.1@.len(),
                keys@.len() == j,
                forall|m: int| 0 <= m < j ==> (#[trigger] keys@[m]).bytes@ == entry.1@[m].bytes@,
            decreases entry.1@.len() - j,
        {
            keys.push(H256 { bytes: clone_bytes(&entry.1[j].bytes) });
            j = j + 1;
        }
        out.push((Address { bytes: clone_bytes(&entry.0.bytes) }, keys));
        i = i + 1;
    }
    proof {
        assert(al@.take(al@.len() as int) =~= al@);
    }
    out
}

/// A machine word rendered big-endian.
pub open spec fn spec_u64_be(v: u64) -> Seq<u8> {
    Seq::new(8, |i: int| (v >> ((7 - i) * 8)) as u8)
}

pub fn append_u64_be(out: &mut Vec<u8>, v: u64)
    ensures
        final(out)@ == old(out)@ + spec_u64_be(v),
{
    let mut k: usize = 0;
    while k < 8
        invariant
            k <= 8,
            out@ == old(out)@ + spec_u64_be(v).take(k as int),
        decreases 8 - k,
    {
        let shift: u64 = (7 - k as u64) * 8;
        let byte: u8 = ((v >> shift) & 0xff) as u8;
        proof {
            assert(((v >> shift) & 0xff) as u8 == (v >> shift) as u8) by (bit_vector);
        }
        out.push(byte);
        proof {
            assert(out@ =~= old(out)@ + spec_u64_be(v).take(k + 1));
        }
        k = k + 1;
    }
    proof {
        assert(old(out)@ + spec_u64_be(v).take(8) =~= old(out)@ + spec_u64_be(v));
    }
}

/// A 256-bit word rendered big-endian.
pub open spec fn spec_u256_be(v: U256) -> Seq<u8> {
    spec_u64_be(v.w3) + spec_u64_be(v.w2) + spec_u64_be(v.w1) + spec_u64_be(v.w0)
}

pub fn append_u256_be(out: &mut Vec<u8>, v: U256)
    ensures
        final(out)@ == old(out)@ + spec_u256_be(v),
{
    append_u64_be(out, v.w3);
    append_u64_be(out, v.w2);
    append_u64_be(out, v.w1);
    append_u64_be(out, v.w0);
    proof {
        assert(out@ =~= old(out)@ + spec_u256_be(v));
    }
}

/// A byte string rendered with its length ahead of it.
pub open spec fn spec_len_prefixed(data: Seq<u8>) -> Seq<u8> {
    spec_u64_be(data.len() as u64) + data
}

/// One access-list entry rendered canonically.
pub open spec fn spec_al_entry_bytes(entry: (Address, Vec<H256>)) -> Seq<u8>
    decreases entry.1@.len(),
{
    entry.0.bytes@ + spec_u64_be(entry.1@.len() as u64) + spec_keys_bytes(
        entry.1@,
        entry.1@.len() as int,
    )
}

/// The first `i` storage keys of an entry, concatenated.
pub open spec fn spec_keys_bytes(keys: Seq<H256>, i: int) -> Seq<u8>
    decreases i,
{
    if i <= 0 {
        Seq::empty()
    } else {
        spec_keys_bytes(keys, i - 1) + keys[i - 1].bytes@
    }
}

/// The first `i` access-list entries, concatenated.
pub open spec fn spec_al_bytes(al: Seq<(Address, Vec<H256>)>, i: int) -> Seq<u8>
    decreases i,
{
    if i <= 0 {
        Seq::empty()
    } else {
        spec_al_bytes(al, i - 1) + spec_al_entry_bytes(al[i - 1])
    }
}

pub open spec fn spec_txkind_bytes(kind: TxKind) -> Seq<u8> {
    match kind {
        TxKind::Create => seq![0u8],
        TxKind::Call(a) => seq![1u8] + a.bytes@,
    }
}

/// The canonical byte rendering a transaction is keyed by in the pool.
pub open spec fn spec_tx_preimage(tx: Transaction) -> Seq<u8> {
    match tx {
        Transaction::EIP1559Transaction(t) => seq![1u8] + spec_u64_be(t.nonce) + spec_u64_be(
            t.max_priority_fee_per_gas,
        ) + spec_u64_be(t.max_fee_per_gas) + spec_u64_be(t.gas_limit) + spec_txkind_bytes(t.to)
            + spec_u256_be(t.value) + spec_len_prefixed(t.data@) + spec_u64_be(
            t.access_list@.len() as u64,
        ) + spec_al_bytes(t.access_list@, t.access_list@.len() as int),
        Transaction::EIP4844Transaction(t) => seq![2u8] + spec_u64_be(t.nonce) + spec_u64_be(
            t.max_priority_fee_per_gas,
        ) + spec_u64_be(t.max_fee_per_gas) + spec_u256_be(t.max_fee_per_blob_gas) + spec_u64_be(
            t.gas,
        ) + t.to.bytes@ + spec_u256_be(t.value) + spec_len_prefixed(t.data@) + spec_u64_be(
            t.access_list@.len() as u64,
        ) + spec_al_bytes(t.access_list@, t.access_list@.len() as int),
    }
}

fn append_access_list(out: &mut Vec<u8>, al: &AccessList)
    ensures
        final(out)@ == old(out)@ + spec_u64_be(al@.len() as u64) + spec_al_bytes(
            al@,
            al@.len() as int,
        ),
{
    append_u64_be(out, al.len() as u64);
    let ghost base = out@;
    let mut i: usize = 0;
    while i < al.len()
        invariant
            i <= al@.len(),
            out@ == base + spec_al_bytes(al@, i as int),
        decreases al@.len() - i,
    {
        let entry = &al[i];
        let ghost before_entry = out@;
        append_bytes_vec(out, &entry.0.bytes);
        append_u64_be(out, entry.1.len() as u64);
        let ghost keys_base = out@;
        let mut j: usize = 0;
        while j < entry.1.len()
            invariant
                j <= entry.1@.len(),
                out@ == keys_base + spec_keys_bytes(entry.1@, j as int),
            decreases entry.1@.len() - j,
        {
            append_bytes_vec(out, &entry.1[j].bytes);
            proof {
                assert(out@ =~= keys_base + spec_keys_bytes(entry.1@, j + 1));
            }
            j = j + 1;
        }
        proof {
            assert(out@ =~= before_entry + spec_al_entry_bytes(al@[i as int]));
            assert(out@ =~= base + spec_al_bytes(al@, i + 1));
        }
        i = i + 1;
    }
    proof {
        assert(final(out)@ == base + spec_al_bytes(al@, al@.len() as int));
    }
}

fn append_bytes_vec(out: &mut Vec<u8>, src: &Vec<u8>)
    ensures
        final(out)@ == old(out)@ + src@,
{
    crate::hashing::append_bytes(out, src);
}

/// The canonical pool-key preimage of a transaction.
pub fn tx_preimage(tx: &Transaction) -> (r: Vec<u8>)
    ensures
        r@ == spec_tx_preimage(*tx),
{
    let mut out: Vec<u8> = Vec::new();
    match tx {
        Transaction::EIP1559Transaction(t) => {
            out.push(1u8);
            append_u64_be(&mut out, t.nonce);
            append_u64_be(&mut out, t.max_priority_fee_per_gas);
            append_u64_be(&mut out, t.max_fee_per_gas);
            append_u64_be(&mut out, t.gas_limit);
            match &t.to {
                TxKind::Create => {
                    out.push(0u8);
                },
                TxKind::Call(a) => {
                    out.push(1u8);
                    append_bytes_vec(&mut out, &a.bytes);
                },
            }
            append_u256_be(&mut out, t.value);
            append_u64_be(&mut out, t.data.len() as u64);
            append_bytes_vec(&mut out, &t.data);
            append_access_list(&mut out, &t.access_list);
            proof {
                assert(out@ =~= spec_tx_preimage(*tx));
            }
        },
        Transaction::EIP4844Transaction(t) => {
            out.push(2u8);
            append_u64_be(&mut out, t.nonce);
            append_u64_be(&mut out, t.max_priority_fee_per_gas);
            append_u64_be(&mut out, t.max_fee_per_gas);
            append_u256_be(&mut out, t.max_fee_per_blob_gas);
            append_u64_be(&mut out, t.gas);
            append_bytes_vec(&mut out, &t.to.bytes);
            append_u256_be(&mut out, t.value);
            append_u64_be(&mut out, t.data.len() as u64);
            append_bytes_vec(&mut out, &t.data);
            append_access_list(&mut out, &t.access_list);
            proof {
                assert(out@ =~= spec_tx_preimage(*tx));
            }
        },
    }
    out
}

} // verus!
