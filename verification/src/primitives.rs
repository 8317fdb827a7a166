use vstd::prelude::*;

verus! {

/// 256-bit unsigned word, four 64-bit limbs, least significant first.
#[derive(Debug, Clone, Copy, PartialEq, Eq, Structural, Hash)]
pub struct U256 {
    pub w0: u64,
    pub w1: u64,
    pub w2: u64,
    pub w3: u64,
}

impl U256 {
    /// The mathematical value of this word.
    pub open spec fn value(self) -> int {
        self.w0 + self.w1 * 0x1_0000_0000_0000_0000
            + self.w2 * 0x1_0000_0000_0000_0000_0000_0000_0000_0000
            + self.w3 * 0x1_0000_0000_0000_0000_0000_0000_0000_0000_0000_0000_0000_0000
    }

    pub fn zero() -> (r: U256)
        ensures
            r.value() == 0,
    {
        U256 { w0: 0, w1: 0, w2: 0, w3: 0 }
    }

    pub fn from_u64(v: u64) -> (r: U256)
        ensures
            r.value() == v,
    {
        U256 { w0: v, w1: 0, w2: 0, w3: 0 }
    }

    /// Narrow to a machine word; callers must know the value fits.
    pub fn as_usize(&self) -> (r: usize)
        requires
            self.value() <= usize::MAX,
        ensures
            r == self.value(),
    {
        self.w0 as usize
    }

    pub fn lt(&self, other: &U256) -> (r: bool)
        ensures
            r == (self.value() < other.value()),
    {
        if self.w3 != other.w3 {
            self.w3 < other.w3
        } else if self.w2 != other.w2 {
            self.w2 < other.w2
        } else if self.w1 != other.w1 {
            self.w1 < other.w1
        } else {
            self.w0 < other.w0
        }
    }
}

impl Default for U256 {
    fn default() -> (r: U256)
        ensures
            r.value() == 0,
    {
        U256::zero()
    }
}

/// Compare two byte vectors; the result is exactly view equality.
pub fn bytes_eq(a: &Vec<u8>, b: &Vec<u8>) -> (r: bool)
    ensures
        r == (a@ == b@),
{
    let r = a == b;
    proof {
        if a@.len() == b@.len() && (forall|i: int| 0 <= i < a@.len() ==> a@[i] == b@[i]) {
            assert(a@ =~= b@);
        }
    }
    r
}

/// 160-bit account address, stored as 20 raw bytes.
#[derive(Debug, Clone)]
pub struct Address {
    pub bytes: Vec<u8>,
}

impl Address {
    /// A well-formed address holds exactly 20 bytes.
    pub open spec fn wf(self) -> bool {
        self.bytes@.len() == 20
    }

    /// The address whose last eight bytes are `v` big-endian, the rest zero.
    pub open spec fn spec_low_u64_be(v: u64) -> Seq<u8> {
        Seq::new(20, |i: int| if i < 12 { 0u8 } else { (v >> ((19 - i) * 8)) as u8 })
    }

    pub fn from_low_u64_be(v: u64) -> (r: Address)
        ensures
            r.wf(),
            r.bytes@ == Address::spec_low_u64_be(v),
    {
        let mut bytes: Vec<u8> = Vec::new();
        let mut i: usize = 0;
        while i < 12
            invariant
                i <= 12,
                bytes@.len() == i,
                forall|j: int| 0 <= j < i ==> bytes@[j] == 0u8,
            decreases 12 - i,
        {
            bytes.push(0u8);
            i = i + 1;
        }
        let mut k: usize = 0;
        while k < 8
            invariant
                k <= 8,
                bytes@.len() == 12 + k,
                forall|j: int| 0 <= j < 12 ==> bytes@[j] == 0u8,
                forall|j: int| 12 <= j < 12 + k ==> bytes@[j] == (v >> ((19 - j) * 8)) as u8,
            decreases 8 - k,
        {
            let shift: u64 = (7 - k as u64) * 8;
            let byte: u8 = ((v >> shift) & 0xff) as u8;
            proof {
                assert(((v >> shift) & 0xff) as u8 == (v >> shift) as u8) by (bit_vector);
            }
            bytes.push(byte);
            k = k + 1;
        }
        let r = Address { bytes };
        proof {
            assert(r.bytes@ =~= Address::spec_low_u64_be(v));
        }
        r
    }

    pub fn same_as(&self, other: &Address) -> (r: bool)
        ensures
            r == (self.bytes@ == other.bytes@),
    {
        bytes_eq(&self.bytes, &other.bytes)
    }
}

impl Default for Address {
    fn default() -> (r: Address)
        ensures
            r.wf(),
            forall|i: int| 0 <= i < 20 ==> r.bytes@[i] == 0u8,
    {
        let mut bytes: Vec<u8> = Vec::new();
        let mut i: usize = 0;
        while i < 20
            invariant
                i <= 20,
                bytes@.len() == i,
                forall|j: int| 0 <= j < i ==> bytes@[j] == 0u8,
            decreases 20 - i,
        {
            bytes.push(0u8);
            i = i + 1;
        }
        Address { bytes }
    }
}

/// 32-bit hash fragment used in log topics.
#[derive(Debug, Clone)]
pub struct H32 {
    pub bytes: Vec<u8>,
}

impl H32 {
    pub open spec fn wf(self) -> bool {
        self.bytes@.len() == 4
    }
}

/// 256-bit digest, stored as 32 raw bytes.
#[derive(Debug, Clone)]
pub struct H256 {
    pub bytes: Vec<u8>,
}

impl H256 {
    pub open spec fn wf(self) -> bool {
        self.bytes@.len() == 32
    }

    pub fn same_as(&self, other: &H256) -> (r: bool)
        ensures
            r == (self.bytes@ == other.bytes@),
    {
        bytes_eq(&self.bytes, &other.bytes)
    }
}

} // verus!
