use vstd::prelude::*;

use crate::digest::{keccak256, keccak_of};
use crate::nibble::{clone_bytes, NibbleSlice, NibbleVec};

verus! {

/// Whether a compact-encoded path belongs to a leaf or an extension.
#[derive(Debug, Clone, Copy, PartialEq, Eq, Structural)]
pub enum PathKind {
    Leaf,
    Extension,
}

/// Minimal big-endian byte representation of a non-negative number
/// (empty for zero).
pub open spec fn spec_be_bytes(n: int) -> Seq<u8>
    decreases n,
{
    if n <= 0 {
        Seq::empty()
    } else {
        spec_be_bytes(n / 256) + seq![(n % 256) as u8]
    }
}

/// Header of a canonically encoded item: one tag byte for payloads up to
/// 55 bytes, else a tag byte followed by the payload length in big-endian.
pub open spec fn spec_len_header(base: int, len: int) -> Seq<u8> {
    if len <= 55 {
        seq![(base + len) as u8]
    } else {
        seq![(base + 55 + spec_be_bytes(len).len()) as u8] + spec_be_bytes(len)
    }
}

/// Canonical encoding of a byte string: a single byte below 0x80 stands
/// for itself, anything else gets a string header.
pub open spec fn spec_str_encoding(data: Seq<u8>) -> Seq<u8> {
    if data.len() == 1 && data[0] < 0x80 {
        data
    } else {
        spec_len_header(0x80, data.len() as int) + data
    }
}

/// Nibbles packed two per byte; the length must be even.
pub open spec fn spec_packed(nibs: Seq<u8>) -> Seq<u8> {
    Seq::new(nibs.len() / 2, |i: int| (nibs[2 * i] * 16 + nibs[2 * i + 1]) as u8)
}

pub open spec fn spec_hp_flag(kind: PathKind) -> int {
    match kind {
        PathKind::Leaf => 0x20,
        PathKind::Extension => 0x00,
    }
}

/// Compact (hex-prefix) encoding of a nibble run: a flag byte carrying
/// the parity (and the first nibble when odd), then the packed nibbles.
pub open spec fn spec_hp_encode(nibs: Seq<u8>, kind: PathKind) -> Seq<u8> {
    if nibs.len() % 2 == 0 {
        seq![spec_hp_flag(kind) as u8] + spec_packed(nibs)
    } else {
        seq![(spec_hp_flag(kind) + 0x10 + nibs[0]) as u8] + spec_packed(nibs.skip(1))
    }
}

/// Canonical encoding of a compact path item.
pub open spec fn spec_path_encoding(nibs: Seq<u8>, kind: PathKind) -> Seq<u8> {
    spec_str_encoding(spec_hp_encode(nibs, kind))
}

/// A reference to a node as it appears inside its parent's encoding:
/// nodes whose encoding is shorter than 32 bytes are inlined, all others
/// are represented by their 32-byte digest.
#[derive(Debug)]
pub enum NodeHashRef {
    Inline(Vec<u8>),
    Hashed(Vec<u8>),
}

impl NodeHashRef {
    pub open spec fn bytes(self) -> Seq<u8> {
        match self {
            NodeHashRef::Inline(v) => v@,
            NodeHashRef::Hashed(v) => v@,
        }
    }

    pub open spec fn wf(self) -> bool {
        match self {
            NodeHashRef::Inline(v) => v@.len() < 32,
            NodeHashRef::Hashed(v) => v@.len() == 32,
        }
    }

    pub fn as_ref(&self) -> (r: &[u8])
        ensures
            r@ == self.bytes(),
    {
        match self {
            NodeHashRef::Inline(v) => v.as_slice(),
            NodeHashRef::Hashed(v) => v.as_slice(),
        }
    }

    /// Structural sameness up to byte views.
    pub open spec fn eqv(self, other: NodeHashRef) -> bool {
        match (self, other) {
            (NodeHashRef::Inline(a), NodeHashRef::Inline(b)) => a@ == b@,
            (NodeHashRef::Hashed(a), NodeHashRef::Hashed(b)) => a@ == b@,
            _ => false,
        }
    }

    pub fn duplicate(&self) -> (r: NodeHashRef)
        ensures
            r.eqv(*self),
            r.bytes() == self.bytes(),
    {
        match self {
            NodeHashRef::Inline(v) => NodeHashRef::Inline(clone_bytes(v)),
            NodeHashRef::Hashed(v) => NodeHashRef::Hashed(clone_bytes(v)),
        }
    }
}

/// Sameness of two optional digest references up to byte views.
pub open spec fn opt_hash_eqv(a: Option<NodeHashRef>, b: Option<NodeHashRef>) -> bool {
    match (a, b) {
        (Some(x), Some(y)) => x.eqv(y),
        (None, None) => true,
        _ => false,
    }
}

/// The digest the rest of the network assigns to a node with the given
/// canonical encoding.
pub open spec fn spec_hash_matches(r: NodeHashRef, enc: Seq<u8>) -> bool {
    if enc.len() < 32 {
        r matches NodeHashRef::Inline(v) && v@ == enc
    } else {
        r matches NodeHashRef::Hashed(v) && v@ == keccak_of(enc)
    }
}

/// How a child appears inside its parent's encoding: inline encodings
/// stand as they are, digests as a 32-byte string item.
pub open spec fn spec_child_encoding(r: NodeHashRef) -> Seq<u8> {
    match r {
        NodeHashRef::Inline(v) => v@,
        NodeHashRef::Hashed(v) => spec_str_encoding(v@),
    }
}

/// A memoized, invalidatable digest cell: `None` means dirty.
#[derive(Debug)]
pub struct NodeHash {
    pub cached: Option<NodeHashRef>,
}

impl NodeHash {
    pub open spec fn is_dirty(self) -> bool {
        self.cached is None
    }

    pub fn dirty() -> (r: NodeHash)
        ensures
            r.is_dirty(),
    {
        NodeHash { cached: None }
    }

    pub fn mark_as_dirty(&mut self)
        ensures
            final(self).is_dirty(),
    {
        self.cached = None;
    }

    pub fn extract_ref(&self) -> (r: Option<NodeHashRef>)
        ensures
            opt_hash_eqv(r, self.cached),
            r is Some <==> self.cached is Some,
    {
        match &self.cached {
            Some(h) => Some(h.duplicate()),
            None => None,
        }
    }

    /// Sameness of two cells up to byte views.
    pub open spec fn eqv(self, other: NodeHash) -> bool {
        opt_hash_eqv(self.cached, other.cached)
    }

    pub fn duplicate(&self) -> (r: NodeHash)
        ensures
            r.eqv(*self),
    {
        match &self.cached {
            Some(h) => NodeHash { cached: Some(h.duplicate()) },
            None => NodeHash { cached: None },
        }
    }
}

impl Default for NodeHash {
    fn default() -> (r: NodeHash)
        ensures
            r.is_dirty(),
    {
        NodeHash::dirty()
    }
}

/// Exact big-endian bytes of a machine word.
pub fn be_bytes(n: usize) -> (r: Vec<u8>)
    ensures
        r@ == spec_be_bytes(n as int),
    decreases n,
{
    if n == 0 {
        Vec::new()
    } else {
        let mut r = be_bytes(n / 256);
        r.push((n % 256) as u8);
        r
    }
}

/// The big-endian form of a machine word takes at most eight bytes.
pub proof fn lemma_be_bytes_len8(n: int)
    requires
        0 <= n,
        n <= 0xFFFF_FFFF_FFFF_FFFF,
    ensures
        spec_be_bytes(n).len() <= 8,
{
    let n1 = n / 256;
    let n2 = n1 / 256;
    let n3 = n2 / 256;
    let n4 = n3 / 256;
    let n5 = n4 / 256;
    let n6 = n5 / 256;
    let n7 = n6 / 256;
    let n8 = n7 / 256;
    assert(n8 == 0);
    assert(spec_be_bytes(n8).len() == 0);
    assert(spec_be_bytes(n7).len() <= 1);
    assert(spec_be_bytes(n6).len() <= 2);
    assert(spec_be_bytes(n5).len() <= 3);
    assert(spec_be_bytes(n4).len() <= 4);
    assert(spec_be_bytes(n3).len() <= 5);
    assert(spec_be_bytes(n2).len() <= 6);
    assert(spec_be_bytes(n1).len() <= 7);
    assert(spec_be_bytes(n).len() <= 8);
}

/// Builds the canonical encoding of one node into a buffer and digests
/// it at the end.
#[derive(Debug)]
pub struct NodeHasher {
    pub buffer: Vec<u8>,
}

impl NodeHasher {
    pub fn new() -> (r: NodeHasher)
        ensures
            r.buffer@.len() == 0,
    {
        NodeHasher { buffer: Vec::new() }
    }

    /// Encoded size of a compact path of `n_nibbles` remaining nibbles;
    /// the size depends only on the count, never on the symbols or kind.
    pub fn path_len(n_nibbles: usize) -> (r: usize)
        requires
            n_nibbles / 2 + 10 <= usize::MAX,
        ensures
            forall|nibs: Seq<u8>, kind: PathKind|
                nibs.len() == n_nibbles && (forall|i: int| 0 <= i < nibs.len() ==> nibs[i] < 16)
                    ==> #[trigger] spec_path_encoding(nibs, kind).len() == r,
    {
        let hp_len: usize = 1 + n_nibbles / 2;
        let r = if hp_len == 1 {
            1
        } else if hp_len <= 55 {
            1 + hp_len
        } else {
            proof {
                lemma_be_bytes_len8(hp_len as int);
            }
            1 + be_bytes(hp_len).len() + hp_len
        };
        proof {
            assert forall|nibs: Seq<u8>, kind: PathKind|
                nibs.len() == n_nibbles && (forall|i: int| 0 <= i < nibs.len() ==> nibs[i] < 16)
                    implies #[trigger] spec_path_encoding(nibs, kind).len() == r by {
                let hp = spec_hp_encode(nibs, kind);
                if nibs.len() % 2 == 0 {
                    assert(spec_packed(nibs).len() == nibs.len() / 2);
                } else {
                    assert(spec_packed(nibs.skip(1)).len() == (nibs.len() - 1) / 2);
                }
                assert(hp.len() == 1 + n_nibbles / 2);
                if hp.len() == 1 {
                    if nibs.len() % 2 == 0 {
                        assert(hp[0] == spec_hp_flag(kind) as u8);
                        assert(hp[0] < 0x80);
                    } else {
                        assert(nibs[0] < 16);
                        assert(hp[0] == (spec_hp_flag(kind) + 0x10 + nibs[0]) as u8);
                        assert(hp[0] < 0x80);
                    }
                }
            }
        }
        r
    }

    /// Encoded size of a byte-string item of length `len` whose first
    /// byte is `first` (`first` matters only for single-byte strings).
    pub fn bytes_len(len: usize, first: u8) -> (r: usize)
        requires
            len + 10 <= usize::MAX,
        ensures
            forall|data: Seq<u8>|
                data.len() == len && (len > 0 ==> data[0] == first)
                    ==> #[trigger] spec_str_encoding(data).len() == r,
    {
        if len == 1 && first < 0x80 {
            1
        } else if len <= 55 {
            1 + len
        } else {
            proof {
                lemma_be_bytes_len8(len as int);
            }
            1 + be_bytes(len).len() + len
        }
    }

    fn write_len_header(&mut self, base: u8, len: usize)
        requires
            base == 0x80 || base == 0xC0,
        ensures
            final(self).buffer@ == old(self).buffer@ + spec_len_header(base as int, len as int),
    {
        if len <= 55 {
            self.buffer.push(base + len as u8);
            proof {
                assert(self.buffer@ =~= old(self).buffer@ + spec_len_header(
                    base as int,
                    len as int,
                ));
            }
        } else {
            proof {
                lemma_be_bytes_len8(len as int);
            }
            let be = be_bytes(len);
            self.buffer.push(base + 55 + be.len() as u8);
            append_bytes(&mut self.buffer, &be);
            proof {
                assert(self.buffer@ =~= old(self).buffer@ + spec_len_header(
                    base as int,
                    len as int,
                ));
            }
        }
    }

    /// Append the canonical encoding of a byte-string item.
    pub fn write_bytes(&mut self, data: &Vec<u8>)
        ensures
            final(self).buffer@ == old(self).buffer@ + spec_str_encoding(data@),
    {
        if data.len() == 1 {
            let b = data[0];
            if b < 0x80 {
                self.buffer.push(b);
                proof {
                    assert(self.buffer@ =~= old(self).buffer@ + spec_str_encoding(data@));
                }
                return ;
            }
        }
        self.write_len_header(0x80, data.len());
        append_bytes(&mut self.buffer, data);
        proof {
            assert(self.buffer@ =~= old(self).buffer@ + spec_str_encoding(data@));
        }
    }

    /// Append a list header for `payload_len` bytes of payload.
    pub fn write_list_header(&mut self, payload_len: usize)
        ensures
            final(self).buffer@ == old(self).buffer@ + spec_len_header(0xC0, payload_len as int),
    {
        self.write_len_header(0xC0, payload_len);
    }

    /// Append the compact encoding of the remaining nibbles of `path`.
    pub fn write_path_slice(&mut self, path: &NibbleSlice, kind: PathKind)
        requires
            path.wf(),
        ensures
            final(self).buffer@ == old(self).buffer@ + spec_path_encoding(path.rest(), kind),
    {
        let nibs = path.split_to_vec(path.len());
        proof {
            assert(nibs.nibbles@ =~= path.rest());
        }
        self.write_path_vec(&nibs, kind);
    }

    /// Append the compact encoding of a materialized nibble run.
    pub fn write_path_vec(&mut self, path: &NibbleVec, kind: PathKind)
        requires
            path.wf(),
        ensures
            final(self).buffer@ == old(self).buffer@ + spec_path_encoding(path.nibbles@, kind),
    {
        let hp = hp_encode(&path.nibbles, kind);
        self.write_bytes(&hp);
    }

    /// Append raw, already-encoded bytes.
    pub fn write_raw(&mut self, data: &Vec<u8>)
        ensures
            final(self).buffer@ == old(self).buffer@ + data@,
    {
        append_bytes(&mut self.buffer, data);
    }

    /// Append a child as it appears inside its parent: inline encodings
    /// verbatim, digests as a 32-byte string item.
    pub fn write_child(&mut self, child: &NodeHashRef)
        ensures
            final(self).buffer@ == old(self).buffer@ + spec_child_encoding(*child),
    {
        match child {
            NodeHashRef::Inline(v) => {
                append_bytes(&mut self.buffer, v);
            },
            NodeHashRef::Hashed(v) => {
                self.write_bytes(v);
            },
        }
    }

    /// Close the encoding: short encodings stand for themselves, longer
    /// ones are replaced by their Keccak-256 digest.
    pub fn finalize(self) -> (r: NodeHashRef)
        ensures
            spec_hash_matches(r, self.buffer@),
            r.wf(),
    {
        if self.buffer.len() < 32 {
            NodeHashRef::Inline(self.buffer)
        } else {
            NodeHashRef::Hashed(keccak256(&self.buffer))
        }
    }
}

/// Append all of `src` to `dst`.
pub fn append_bytes(dst: &mut Vec<u8>, src: &Vec<u8>)
    ensures
        final(dst)@ == old(dst)@ + src@,
{
    let mut i: usize = 0;
    while i < src.len()
        invariant
            i <= src@.len(),
            dst@ == old(dst)@ + src@.take(i as int),
        decreases src@.len() - i,
    {
        dst.push(src[i]);
        proof {
            assert(dst@ =~= old(dst)@ + src@.take(i + 1));
        }
        i = i + 1;
    }
    proof {
        assert(old(dst)@ + src@.take(src@.len() as int) =~= old(dst)@ + src@);
    }
}

/// The compact (hex-prefix) bytes of a nibble run.
pub fn hp_encode(nibs: &Vec<u8>, kind: PathKind) -> (r: Vec<u8>)
    requires
        forall|i: int| 0 <= i < nibs@.len() ==> nibs@[i] < 16,
    ensures
        r@ == spec_hp_encode(nibs@, kind),
{
    let flag: u8 = match kind {
        PathKind::Leaf => 0x20,
        PathKind::Extension => 0x00,
    };
    let n = nibs.len();
    let parity: usize = n % 2;
    let mut out: Vec<u8> = Vec::new();
    if parity == 0 {
        out.push(flag);
    } else {
        out.push(flag + 0x10 + nibs[0]);
    }
    let ghost packed_src: Seq<u8> = nibs@.skip(parity as int);
    let mut i: usize = parity;
    while i < n
        invariant
            forall|j: int| 0 <= j < nibs@.len() ==> nibs@[j] < 16,
            n == nibs@.len(),
            parity == n % 2,
            packed_src == nibs@.skip(parity as int),
            parity <= i <= n,
            (i - parity) % 2 == 0,
            out@.len() == 1 + (i - parity) / 2,
            out@ == spec_hp_encode(nibs@, kind).take(1 + (i - parity) / 2),
        decreases n - i,
    {
        let b: u8 = nibs[i] * 16 + nibs[i + 1];
        proof {
            let m = (i - parity) / 2;
            assert(packed_src[2 * m] == nibs@[i as int]);
            assert(packed_src[2 * m + 1] == nibs@[i + 1]);
            assert(spec_packed(packed_src)[m] == b);
            assert(spec_hp_encode(nibs@, kind)[1 + m] == spec_packed(packed_src)[m]);
        }
        out.push(b);
        proof {
            assert(out@ =~= spec_hp_encode(nibs@, kind).take(1 + (i + 2 - parity) / 2));
        }
        i = i + 2;
    }
    proof {
        assert(spec_hp_encode(nibs@, kind).len() == 1 + (n - parity) / 2);
        assert(out@ =~= spec_hp_encode(nibs@, kind));
    }
    out
}

} // verus!
