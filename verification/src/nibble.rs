use vstd::prelude::*;

verus! {

/// The nibble expansion of a byte string: each byte yields its high
/// nibble, then its low nibble, so N bytes give exactly 2N symbols.
pub open spec fn nibbles_of(bytes: Seq<u8>) -> Seq<u8> {
    Seq::new(
        2 * bytes.len(),
        |i: int| if i % 2 == 0 { bytes[i / 2] >> 4u8 } else { bytes[i / 2] & 0x0fu8 },
    )
}

/// Every nibble is a 4-bit symbol.
pub proof fn lemma_nibbles_bound(bytes: Seq<u8>)
    ensures
        forall|i: int| 0 <= i < nibbles_of(bytes).len() ==> #[trigger] nibbles_of(bytes)[i] < 16,
{
    assert forall|i: int| 0 <= i < nibbles_of(bytes).len() implies #[trigger] nibbles_of(bytes)[i]
        < 16 by {
        let b = bytes[i / 2];
        assert((b >> 4u8) < 16 && (b & 0x0fu8) < 16) by (bit_vector);
    }
}

/// Length of the longest common prefix of two nibble sequences.
pub open spec fn spec_common_prefix_len(a: Seq<u8>, b: Seq<u8>) -> int
    decreases a.len(),
{
    if a.len() == 0 || b.len() == 0 {
        0
    } else if a[0] != b[0] {
        0
    } else {
        1 + spec_common_prefix_len(a.skip(1), b.skip(1))
    }
}

pub proof fn lemma_common_prefix_props(a: Seq<u8>, b: Seq<u8>)
    ensures
        0 <= spec_common_prefix_len(a, b),
        spec_common_prefix_len(a, b) <= a.len(),
        spec_common_prefix_len(a, b) <= b.len(),
        forall|i: int|
            0 <= i < spec_common_prefix_len(a, b) ==> a[i] == b[i],
        (spec_common_prefix_len(a, b) < a.len() && spec_common_prefix_len(a, b) < b.len())
            ==> a[spec_common_prefix_len(a, b)] != b[spec_common_prefix_len(a, b)],
    decreases a.len(),
{
    if a.len() == 0 || b.len() == 0 {
    } else if a[0] != b[0] {
    } else {
        lemma_common_prefix_props(a.skip(1), b.skip(1));
        let k = spec_common_prefix_len(a, b);
        assert(forall|i: int| 0 <= i < k - 1 ==> a.skip(1)[i] == b.skip(1)[i] ==> a[i + 1] == b[i
            + 1]);
        assert forall|i: int| 0 <= i < k implies a[i] == b[i] by {
            if i > 0 {
                assert(a.skip(1)[i - 1] == b.skip(1)[i - 1]);
                assert(a.skip(1)[i - 1] == a[i]);
                assert(b.skip(1)[i - 1] == b[i]);
            }
        }
        if k < a.len() && k < b.len() {
            assert(a.skip(1)[k - 1] == a[k]);
            assert(b.skip(1)[k - 1] == b[k]);
        }
    }
}

/// The common-prefix length is pinned down by its characteristic
/// properties; any count with those properties equals it.
pub proof fn lemma_common_prefix_unique(a: Seq<u8>, b: Seq<u8>, r: int)
    requires
        0 <= r,
        r <= a.len(),
        r <= b.len(),
        forall|i: int| 0 <= i < r ==> a[i] == b[i],
        (r < a.len() && r < b.len()) ==> a[r] != b[r],
    ensures
        r == spec_common_prefix_len(a, b),
    decreases a.len(),
{
    if a.len() == 0 || b.len() == 0 {
    } else if a[0] != b[0] {
        if r > 0 {
            assert(a[0] == b[0]);
        }
    } else {
        if r == 0 {
            assert(a[0] != b[0]);
        } else {
            assert forall|i: int| 0 <= i < r - 1 implies a.skip(1)[i] == b.skip(1)[i] by {
                assert(a.skip(1)[i] == a[i + 1]);
                assert(b.skip(1)[i] == b[i + 1]);
            }
            if r - 1 < a.skip(1).len() && r - 1 < b.skip(1).len() {
                assert(a.skip(1)[r - 1] == a[r]);
                assert(b.skip(1)[r - 1] == b[r]);
            }
            lemma_common_prefix_unique(a.skip(1), b.skip(1), r - 1);
        }
    }
}

/// A byte string is recoverable from its nibble expansion.
pub proof fn lemma_nibbles_injective(a: Seq<u8>, b: Seq<u8>)
    requires
        nibbles_of(a) == nibbles_of(b),
    ensures
        a == b,
{
    assert(nibbles_of(a).len() == 2 * a.len());
    assert(nibbles_of(b).len() == 2 * b.len());
    assert(a.len() == b.len());
    assert forall|i: int| 0 <= i < a.len() implies a[i] == b[i] by {
        assert(0 <= 2 * i < 2 * b.len() && 2 * i + 1 < 2 * b.len());
        let x = a[i];
        let y = b[i];
        assert(nibbles_of(a)[2 * i] == x >> 4u8);
        assert(nibbles_of(a)[2 * i + 1] == x & 0x0fu8);
        assert(nibbles_of(b)[2 * i] == y >> 4u8);
        assert(nibbles_of(b)[2 * i + 1] == y & 0x0fu8);
        assert((x >> 4u8 == y >> 4u8 && (x & 0x0fu8) == (y & 0x0fu8)) ==> x == y)
            by (bit_vector);
    }
    assert(a =~= b);
}

/// Two remainders agree from `n` exactly when they agree at `n` and
/// from `n + 1` on.
pub proof fn lemma_skip_shift(a: Seq<u8>, b: Seq<u8>, n: int)
    requires
        0 <= n,
        n + 1 <= a.len(),
        n + 1 <= b.len(),
    ensures
        (a.skip(n) == b.skip(n)) <==> (a[n] == b[n] && a.skip(n + 1) == b.skip(n + 1)),
{
    if a.skip(n) == b.skip(n) {
        assert(a.skip(n).len() == a.len() - n);
        assert(b.skip(n).len() == b.len() - n);
        assert(a.len() == b.len());
        assert(a.skip(n)[0] == a[n]);
        assert(b.skip(n)[0] == b[n]);
        assert forall|i: int| 0 <= i < a.skip(n + 1).len() implies #[trigger] a.skip(n + 1)[i]
            == b.skip(n + 1)[i] by {
            assert(a.skip(n + 1)[i] == a[n + 1 + i]);
            assert(a.skip(n)[i + 1] == a[n + 1 + i]);
            assert(b.skip(n)[i + 1] == b[n + 1 + i]);
            assert(b.skip(n + 1)[i] == b[n + 1 + i]);
        }
        assert(a.skip(n + 1) =~= b.skip(n + 1));
    }
    if a[n] == b[n] && a.skip(n + 1) == b.skip(n + 1) {
        assert(a.skip(n + 1).len() == a.len() - n - 1);
        assert(b.skip(n + 1).len() == b.len() - n - 1);
        assert(a.len() == b.len());
        assert forall|i: int| 0 <= i < a.skip(n).len() implies #[trigger] a.skip(n)[i] == b.skip(
            n,
        )[i] by {
            if i == 0 {
                assert(a.skip(n)[0] == a[n]);
                assert(b.skip(n)[0] == b[n]);
            } else {
                assert(a.skip(n)[i] == a[n + i]);
                assert(a.skip(n + 1)[i - 1] == a[n + i]);
                assert(b.skip(n + 1)[i - 1] == b[n + i]);
                assert(b.skip(n)[i] == b[n + i]);
            }
        }
        assert(a.skip(n) =~= b.skip(n));
    }
}

/// Two remainders agree from `n` exactly when they agree over the next
/// `m` symbols and from `n + m` on.
pub proof fn lemma_skip_split(a: Seq<u8>, b: Seq<u8>, n: int, m: int)
    requires
        0 <= n,
        0 <= m,
        n + m <= a.len(),
        n + m <= b.len(),
    ensures
        (a.skip(n) == b.skip(n)) <==> (a.subrange(n, n + m) == b.subrange(n, n + m) && a.skip(
            n + m,
        ) == b.skip(n + m)),
{
    if a.skip(n) == b.skip(n) {
        assert(a.skip(n).len() == a.len() - n);
        assert(b.skip(n).len() == b.len() - n);
        assert(a.len() == b.len());
        assert forall|i: int| 0 <= i < m implies #[trigger] a.subrange(n, n + m)[i] == b.subrange(
            n,
            n + m,
        )[i] by {
            assert(a.subrange(n, n + m)[i] == a[n + i]);
            assert(a.skip(n)[i] == a[n + i]);
            assert(b.skip(n)[i] == b[n + i]);
            assert(b.subrange(n, n + m)[i] == b[n + i]);
        }
        assert(a.subrange(n, n + m) =~= b.subrange(n, n + m));
        assert forall|i: int| 0 <= i < a.skip(n + m).len() implies #[trigger] a.skip(n + m)[i]
            == b.skip(n + m)[i] by {
            assert(a.skip(n + m)[i] == a[n + m + i]);
            assert(a.skip(n)[m + i] == a[n + m + i]);
            assert(b.skip(n)[m + i] == b[n + m + i]);
            assert(b.skip(n + m)[i] == b[n + m + i]);
        }
        assert(a.skip(n + m) =~= b.skip(n + m));
    }
    if a.subrange(n, n + m) == b.subrange(n, n + m) && a.skip(n + m) == b.skip(n + m) {
        assert(a.skip(n + m).len() == a.len() - n - m);
        assert(b.skip(n + m).len() == b.len() - n - m);
        assert(a.len() == b.len());
        assert forall|i: int| 0 <= i < a.skip(n).len() implies #[trigger] a.skip(n)[i] == b.skip(
            n,
        )[i] by {
            if i < m {
                assert(a.skip(n)[i] == a[n + i]);
                assert(a.subrange(n, n + m)[i] == a[n + i]);
                assert(b.subrange(n, n + m)[i] == b[n + i]);
                assert(b.skip(n)[i] == b[n + i]);
            } else {
                assert(a.skip(n)[i] == a[n + i]);
                assert(a.skip(n + m)[i - m] == a[n + i]);
                assert(b.skip(n + m)[i - m] == b[n + i]);
                assert(b.skip(n)[i] == b[n + i]);
            }
        }
        assert(a.skip(n) =~= b.skip(n));
    }
}

/// A materialized run of nibbles, one symbol per byte, as stored inside
/// an extension node.
#[derive(Debug)]
pub struct NibbleVec {
    pub nibbles: Vec<u8>,
}

impl NibbleVec {
    /// Well-formed runs hold 4-bit symbols only.
    pub open spec fn wf(self) -> bool {
        forall|i: int| 0 <= i < self.nibbles@.len() ==> self.nibbles@[i] < 16
    }

    pub fn len(&self) -> (r: usize)
        ensures
            r == self.nibbles@.len(),
    {
        self.nibbles.len()
    }

    /// The run from position `from` on, as a fresh run.
    pub fn suffix(&self, from: usize) -> (r: NibbleVec)
        requires
            from <= self.nibbles@.len(),
        ensures
            r.nibbles@ == self.nibbles@.skip(from as int),
            self.wf() ==> r.wf(),
    {
        let mut nibbles: Vec<u8> = Vec::new();
        let mut i: usize = from;
        while i < self.nibbles.len()
            invariant
                from <= i <= self.nibbles@.len(),
                nibbles@ == self.nibbles@.subrange(from as int, i as int),
            decreases self.nibbles@.len() - i,
        {
            nibbles.push(self.nibbles[i]);
            proof {
                assert(nibbles@ =~= self.nibbles@.subrange(from as int, i + 1));
            }
            i = i + 1;
        }
        proof {
            assert(self.nibbles@.subrange(from as int, self.nibbles@.len() as int) =~= self.nibbles@.skip(from as int));
        }
        NibbleVec { nibbles }
    }

    /// This run followed by another, as a fresh run.
    pub fn concat(&self, other: &NibbleVec) -> (r: NibbleVec)
        ensures
            r.nibbles@ == self.nibbles@ + other.nibbles@,
            self.wf() && other.wf() ==> r.wf(),
    {
        let mut nibbles: Vec<u8> = Vec::new();
        let mut i: usize = 0;
        while i < self.nibbles.len()
            invariant
                i <= self.nibbles@.len(),
                nibbles@ == self.nibbles@.take(i as int),
            decreases self.nibbles@.len() - i,
        {
            nibbles.push(self.nibbles[i]);
            proof {
                assert(nibbles@ =~= self.nibbles@.take(i + 1));
            }
            i = i + 1;
        }
        proof {
            assert(nibbles@ =~= self.nibbles@);
        }
        let mut k: usize = 0;
        while k < other.nibbles.len()
            invariant
                k <= other.nibbles@.len(),
                nibbles@ == self.nibbles@ + other.nibbles@.take(k as int),
            decreases other.nibbles@.len() - k,
        {
            nibbles.push(other.nibbles[k]);
            proof {
                assert(nibbles@ =~= self.nibbles@ + other.nibbles@.take(k + 1));
            }
            k = k + 1;
        }
        proof {
            assert(nibbles@ =~= self.nibbles@ + other.nibbles@);
        }
        NibbleVec { nibbles }
    }

    /// A run of one nibble.
    pub fn single(nib: u8) -> (r: NibbleVec)
        requires
            nib < 16,
        ensures
            r.nibbles@ == seq![nib],
            r.wf(),
    {
        let mut nibbles: Vec<u8> = Vec::new();
        nibbles.push(nib);
        proof {
            assert(nibbles@ =~= seq![nib]);
        }
        NibbleVec { nibbles }
    }

    pub fn duplicate(&self) -> (r: NibbleVec)
        ensures
            r.nibbles@ == self.nibbles@,
    {
        let mut nibbles: Vec<u8> = Vec::new();
        let mut i: usize = 0;
        while i < self.nibbles.len()
            invariant
                i <= self.nibbles@.len(),
                nibbles@ == self.nibbles@.take(i as int),
            decreases self.nibbles@.len() - i,
        {
            nibbles.push(self.nibbles[i]);
            proof {
                assert(nibbles@ =~= self.nibbles@.take(i + 1));
            }
            i = i + 1;
        }
        proof {
            assert(self.nibbles@.take(self.nibbles@.len() as int) =~= self.nibbles@);
        }
        NibbleVec { nibbles }
    }
}

/// A cursor over the nibble expansion of a byte-string key: the bytes
/// plus how many nibbles have already been consumed.
#[derive(Debug)]
pub struct NibbleSlice {
    pub data: Vec<u8>,
    pub offset: usize,
}

impl NibbleSlice {
    /// All nibbles of the underlying key.
    pub open spec fn nibbles(self) -> Seq<u8> {
        nibbles_of(self.data@)
    }

    /// The not-yet-consumed nibbles.
    pub open spec fn rest(self) -> Seq<u8> {
        self.nibbles().skip(self.offset as int)
    }

    pub open spec fn spec_offset(self) -> int {
        self.offset as int
    }

    pub open spec fn spec_data(self) -> Seq<u8> {
        self.data@
    }

    /// The cursor never runs past the key and the nibble count fits the
    /// machine word.
    pub open spec fn wf(self) -> bool {
        &&& self.offset <= 2 * self.data@.len()
        &&& 2 * self.data@.len() <= usize::MAX
    }

    pub fn new(data: &[u8]) -> (r: NibbleSlice)
        requires
            2 * data@.len() <= usize::MAX,
        ensures
            r.wf(),
            r.spec_data() == data@,
            r.spec_offset() == 0,
    {
        NibbleSlice { data: slice_to_vec(data), offset: 0 }
    }

    pub fn offset(&self) -> (r: usize)
        ensures
            r == self.spec_offset(),
    {
        self.offset
    }

    /// How many nibbles remain.
    pub fn len(&self) -> (r: usize)
        requires
            self.wf(),
        ensures
            r == self.rest().len(),
    {
        2 * self.data.len() - self.offset
    }

    pub fn duplicate(&self) -> (r: NibbleSlice)
        ensures
            r.spec_data() == self.spec_data(),
            r.spec_offset() == self.spec_offset(),
    {
        NibbleSlice { data: clone_bytes(&self.data), offset: self.offset }
    }

    /// The nibble `i` places past the cursor, if the key reaches it.
    pub fn nth(&self, i: usize) -> (r: Option<u8>)
        requires
            self.wf(),
            self.spec_offset() + i <= usize::MAX,
        ensures
            i < self.rest().len() ==> r == Some(self.rest()[i as int]),
            i >= self.rest().len() ==> r is None,
    {
        if self.offset + i < 2 * self.data.len() {
            Some(nth_nibble(&self.data, self.offset + i))
        } else {
            None
        }
    }

    /// Consume one nibble.
    pub fn next(&mut self) -> (r: Option<u8>)
        requires
            old(self).wf(),
        ensures
            final(self).wf(),
            final(self).spec_data() == old(self).spec_data(),
            old(self).rest().len() > 0 ==> r == Some(old(self).rest()[0])
                && final(self).spec_offset() == old(self).spec_offset() + 1,
            old(self).rest().len() == 0 ==> r is None
                && final(self).spec_offset() == old(self).spec_offset(),
    {
        if self.offset < 2 * self.data.len() {
            let nib = nth_nibble(&self.data, self.offset);
            self.offset = self.offset + 1;
            Some(nib)
        } else {
            None
        }
    }

    /// Advance the cursor by `n` nibbles.
    pub fn offset_add(&mut self, n: usize)
        requires
            old(self).wf(),
            old(self).spec_offset() + n <= 2 * old(self).spec_data().len(),
        ensures
            final(self).wf(),
            final(self).spec_data() == old(self).spec_data(),
            final(self).spec_offset() == old(self).spec_offset() + n,
    {
        self.offset = self.offset + n;
    }

    /// Length of the shared prefix of the two remainders.
    pub fn count_prefix_slice(&self, other: &NibbleSlice) -> (r: usize)
        requires
            self.wf(),
            other.wf(),
        ensures
            r == spec_common_prefix_len(self.rest(), other.rest()),
            r <= self.rest().len(),
            r <= other.rest().len(),
    {
        let a_len = 2 * self.data.len() - self.offset;
        let b_len = 2 * other.data.len() - other.offset;
        let mut i: usize = 0;
        while i < a_len && i < b_len && nth_nibble(&self.data, self.offset + i) == nth_nibble(
            &other.data,
            other.offset + i,
        )
            invariant
                self.wf(),
                other.wf(),
                a_len == self.rest().len(),
                b_len == other.rest().len(),
                i <= a_len,
                i <= b_len,
                forall|j: int| 0 <= j < i ==> self.rest()[j] == other.rest()[j],
            decreases a_len - i,
        {
            i = i + 1;
        }
        proof {
            lemma_common_prefix_unique(self.rest(), other.rest(), i as int);
        }
        i
    }

    /// Length of the shared prefix of the remainder and a nibble run.
    pub fn count_prefix_vec(&self, prefix: &NibbleVec) -> (r: usize)
        requires
            self.wf(),
        ensures
            r == spec_common_prefix_len(self.rest(), prefix.nibbles@),
            r <= self.rest().len(),
            r <= prefix.nibbles@.len(),
    {
        let rem = 2 * self.data.len() - self.offset;
        let n = prefix.nibbles.len();
        let mut i: usize = 0;
        while i < n && i < rem && nth_nibble(&self.data, self.offset + i) == prefix.nibbles[i]
            invariant
                self.wf(),
                rem == self.rest().len(),
                n == prefix.nibbles@.len(),
                i <= n,
                i <= rem,
                forall|j: int| 0 <= j < i ==> self.rest()[j] == prefix.nibbles@[j],
            decreases n - i,
        {
            i = i + 1;
        }
        proof {
            lemma_common_prefix_unique(self.rest(), prefix.nibbles@, i as int);
        }
        i
    }

    /// True iff the remainder of this cursor equals the remainder of
    /// `bytes`' nibble expansion, viewed from the same offset.
    pub open spec fn spec_cmp_rest(self, bytes: Seq<u8>) -> bool {
        &&& self.spec_offset() <= 2 * bytes.len()
        &&& self.rest() == nibbles_of(bytes).skip(self.spec_offset())
    }

    pub fn cmp_rest(&self, bytes: &[u8]) -> (r: bool)
        requires
            self.wf(),
            2 * bytes@.len() <= usize::MAX,
        ensures
            r == self.spec_cmp_rest(bytes@),
    {
        if self.data.len() != bytes.len() {
            proof {
                if self.spec_offset() <= 2 * bytes@.len() {
                    assert(self.rest().len() != nibbles_of(bytes@).skip(
                        self.spec_offset(),
                    ).len());
                }
            }
            return false;
        }
        let mut i: usize = self.offset;
        let end: usize = 2 * self.data.len();
        while i < end && nth_nibble(&self.data, i) == nth_nibble_of_slice(bytes, i)
            invariant
                self.wf(),
                self.data@.len() == bytes@.len(),
                2 * bytes@.len() <= usize::MAX,
                end == 2 * self.data@.len(),
                self.spec_offset() <= i <= end,
                forall|j: int|
                    self.spec_offset() <= j < i ==> self.nibbles()[j] == nibbles_of(bytes@)[j],
            decreases end - i,
        {
            i = i + 1;
        }
        let r = i == end;
        proof {
            if r {
                assert(self.rest() =~= nibbles_of(bytes@).skip(self.spec_offset()));
            } else {
                assert(self.nibbles()[i as int] != nibbles_of(bytes@)[i as int]);
                if self.rest() == nibbles_of(bytes@).skip(self.spec_offset()) {
                    assert(self.rest()[i - self.spec_offset()] == self.nibbles()[i as int]);
                    assert(nibbles_of(bytes@).skip(self.spec_offset())[i - self.spec_offset()]
                        == nibbles_of(bytes@)[i as int]);
                }
            }
        }
        r
    }

    /// Materialize the first `n` remaining nibbles as a standalone run.
    pub fn split_to_vec(&self, n: usize) -> (r: NibbleVec)
        requires
            self.wf(),
            n <= self.rest().len(),
        ensures
            r.nibbles@ == self.rest().take(n as int),
            r.wf(),
    {
        let mut nibbles: Vec<u8> = Vec::new();
        let mut i: usize = 0;
        while i < n
            invariant
                self.wf(),
                n <= self.rest().len(),
                i <= n,
                nibbles@ == self.rest().take(i as int),
                forall|j: int| 0 <= j < i ==> nibbles@[j] < 16,
            decreases n - i,
        {
            let nib = nth_nibble(&self.data, self.offset + i);
            proof {
                lemma_nibbles_bound(self.data@);
            }
            nibbles.push(nib);
            proof {
                assert(nibbles@ =~= self.rest().take(i + 1));
            }
            i = i + 1;
        }
        NibbleVec { nibbles }
    }

    /// A copy of the whole underlying key.
    pub fn data(&self) -> (r: Vec<u8>)
        ensures
            r@ == self.spec_data(),
    {
        clone_bytes(&self.data)
    }

    /// Length in bytes of the whole underlying key.
    pub fn data_len(&self) -> (r: usize)
        ensures
            r == self.spec_data().len(),
    {
        self.data.len()
    }
}

/// The nibble at position `i` of the expansion of `bytes`.
pub fn nth_nibble(bytes: &Vec<u8>, i: usize) -> (r: u8)
    requires
        i < 2 * bytes@.len(),
    ensures
        r == nibbles_of(bytes@)[i as int],
        r < 16,
{
    let b = bytes[i / 2];
    let r = if i % 2 == 0 {
        b >> 4u8
    } else {
        b & 0x0fu8
    };
    proof {
        assert((b >> 4u8) < 16 && (b & 0x0fu8) < 16) by (bit_vector);
    }
    r
}

/// Copy a byte vector; the copy's view equals the original's.
pub fn clone_bytes(v: &Vec<u8>) -> (r: Vec<u8>)
    ensures
        r@ == v@,
{
    let mut r: Vec<u8> = Vec::new();
    let mut i: usize = 0;
    while i < v.len()
        invariant
            i <= v@.len(),
            r@ == v@.take(i as int),
        decreases v@.len() - i,
    {
        r.push(v[i]);
        proof {
            assert(r@ =~= v@.take(i + 1));
        }
        i = i + 1;
    }
    proof {
        assert(v@.take(v@.len() as int) =~= v@);
    }
    r
}

/// Copy a byte slice into a vector.
pub fn slice_to_vec(s: &[u8]) -> (r: Vec<u8>)
    ensures
        r@ == s@,
{
    let mut r: Vec<u8> = Vec::new();
    let mut i: usize = 0;
    while i < s.len()
        invariant
            i <= s@.len(),
            r@ == s@.take(i as int),
        decreases s@.len() - i,
    {
        r.push(s[i]);
        proof {
            assert(r@ =~= s@.take(i + 1));
        }
        i = i + 1;
    }
    proof {
        assert(s@.take(s@.len() as int) =~= s@);
    }
    r
}

/// The nibble at position `i` of the expansion of the slice `bytes`.
pub fn nth_nibble_of_slice(bytes: &[u8], i: usize) -> (r: u8)
    requires
        i < 2 * bytes@.len(),
    ensures
        r == nibbles_of(bytes@)[i as int],
        r < 16,
{
    let b = bytes[i / 2];
    let r = if i % 2 == 0 {
        b >> 4u8
    } else {
        b & 0x0fu8
    };
    proof {
        assert((b >> 4u8) < 16 && (b & 0x0fu8) < 16) by (bit_vector);
    }
    r
}

} // verus!
