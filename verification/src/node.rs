use vstd::prelude::*;

use crate::db::TrieDB;
use crate::error::StoreError;
use crate::hashing::{
    spec_hash_matches, spec_len_header, spec_path_encoding, spec_str_encoding, NodeHash,
    NodeHashRef, NodeHasher, PathKind,
};
use crate::leaf::{spec_leaf_encoding, LeafNode};
use crate::nibble::{clone_bytes, lemma_nibbles_bound, nibbles_of, NibbleSlice, NibbleVec};
use crate::node_ref::NodeRef;

verus! {

/// A key as raw bytes, ready for canonical encoding.
pub type PathRLP = Vec<u8>;

/// A stored value as raw bytes.
pub type ValueRLP = Vec<u8>;

/// Fork point with one slot per possible next nibble; `value` (with the
/// full key it belongs to) is present only if some key ends exactly here.
#[derive(Debug)]
pub struct BranchNode {
    pub hash: NodeHash,
    pub choices: Vec<NodeRef>,
    pub path: PathRLP,
    pub value: Option<ValueRLP>,
}

/// A run of nibbles shared by every key below `child`.
#[derive(Debug)]
pub struct ExtensionNode {
    pub hash: NodeHash,
    pub prefix: NibbleVec,
    pub child: NodeRef,
}

/// The three shapes of a trie node.
#[derive(Debug)]
pub enum Node {
    Leaf(LeafNode),
    Branch(BranchNode),
    Extension(ExtensionNode),
}

impl BranchNode {
    pub fn new(choices: Vec<NodeRef>) -> (r: BranchNode)
        requires
            choices@.len() == 16,
        ensures
            r.hash.is_dirty(),
            r.choices@ == choices@,
            r.path@.len() == 0,
            r.value is None,
    {
        BranchNode { hash: NodeHash::dirty(), choices, path: Vec::new(), value: None }
    }

    pub fn new_with_value(choices: Vec<NodeRef>, path: PathRLP, value: ValueRLP) -> (r: BranchNode)
        requires
            choices@.len() == 16,
        ensures
            r.hash.is_dirty(),
            r.choices@ == choices@,
            r.path@ == path@,
            r.value matches Some(v) && v@ == value@,
    {
        BranchNode { hash: NodeHash::dirty(), choices, path, value: Some(value) }
    }

    pub fn duplicate(&self) -> (r: BranchNode)
        ensures
            node_eqv(Node::Branch(r), Node::Branch(*self)),
    {
        let mut choices: Vec<NodeRef> = Vec::new();
        let mut i: usize = 0;
        while i < self.choices.len()
            invariant
                i <= self.choices@.len(),
                choices@ == self.choices@.take(i as int),
            decreases self.choices@.len() - i,
        {
            choices.push(self.choices[i]);
            proof {
                assert(choices@ =~= self.choices@.take(i + 1));
            }
            i = i + 1;
        }
        proof {
            assert(self.choices@.take(self.choices@.len() as int) =~= self.choices@);
        }
        let value = match &self.value {
            Some(v) => Some(clone_bytes(v)),
            None => None,
        };
        BranchNode { hash: self.hash.duplicate(), choices, path: clone_bytes(&self.path), value }
    }
}

impl ExtensionNode {
    pub fn new(prefix: NibbleVec, child: NodeRef) -> (r: ExtensionNode)
        ensures
            r.hash.is_dirty(),
            r.prefix.nibbles@ == prefix.nibbles@,
            r.child == child,
    {
        ExtensionNode { hash: NodeHash::dirty(), prefix, child }
    }

    pub fn duplicate(&self) -> (r: ExtensionNode)
        ensures
            node_eqv(Node::Extension(r), Node::Extension(*self)),
    {
        ExtensionNode {
            hash: self.hash.duplicate(),
            prefix: self.prefix.duplicate(),
            child: self.child,
        }
    }
}

/// Sameness of two optional byte vectors up to views.
pub open spec fn opt_bytes_eqv(a: Option<Vec<u8>>, b: Option<Vec<u8>>) -> bool {
    match (a, b) {
        (Some(x), Some(y)) => x@ == y@,
        (None, None) => true,
        _ => false,
    }
}

/// Sameness of two nodes up to field views.
pub open spec fn node_eqv(a: Node, b: Node) -> bool {
    match (a, b) {
        (Node::Leaf(x), Node::Leaf(y)) => x.hash.eqv(y.hash) && x.path@ == y.path@ && x.value@
            == y.value@,
        (Node::Branch(x), Node::Branch(y)) => x.hash.eqv(y.hash) && x.choices@ == y.choices@
            && x.path@ == y.path@ && opt_bytes_eqv(x.value, y.value),
        (Node::Extension(x), Node::Extension(y)) => x.hash.eqv(y.hash) && x.prefix.nibbles@
            == y.prefix.nibbles@ && x.child == y.child,
        _ => false,
    }
}

/// Structural well-formedness of a node in isolation.
pub open spec fn node_wf(n: Node) -> bool {
    match n {
        Node::Leaf(l) => 2 * l.path@.len() <= usize::MAX,
        Node::Branch(b) => b.choices@.len() == 16 && 2 * b.path@.len() <= usize::MAX,
        Node::Extension(e) => e.prefix.wf() && e.child.spec_valid(),
    }
}

/// Every child reference points strictly below `bound` in the arena.
pub open spec fn node_refs_bounded(n: Node, bound: int) -> bool {
    match n {
        Node::Leaf(_) => true,
        Node::Branch(b) => forall|i: int|
            0 <= i < b.choices@.len() && (#[trigger] b.choices@[i]).spec_valid()
                ==> b.choices@[i].index < bound,
        Node::Extension(e) => e.child.index < bound,
    }
}

/// A freshly rewritten node carries a dirty hash cell.
pub open spec fn node_dirty(n: Node) -> bool {
    match n {
        Node::Leaf(l) => l.hash.is_dirty(),
        Node::Branch(b) => b.hash.is_dirty(),
        Node::Extension(e) => e.hash.is_dirty(),
    }
}

/// Arena well-formedness: every stored node is well-formed, dirty, and
/// points only at earlier entries.
pub open spec fn spec_db_wf(nodes: Seq<Node>) -> bool {
    forall|i: int|
        0 <= i < nodes.len() ==> #[trigger] node_refs_bounded(nodes[i], i) && node_wf(nodes[i])
            && node_dirty(nodes[i])
}

/// Lookup through a reference: what the subtree rooted at `rf` holds for
/// `key` (a full nibble sequence) once `offset` nibbles are consumed.
pub open spec fn spec_get_at(nodes: Seq<Node>, rf: NodeRef, key: Seq<u8>, offset: int) -> Option<
    Seq<u8>,
>
    decreases rf.index, 1int,
    when spec_db_wf(nodes)
{
    if rf.spec_valid() && rf.index < nodes.len() {
        spec_get_node(nodes, nodes[rf.index as int], key, offset, rf.index as int)
    } else {
        None
    }
}

/// Lookup through a node value whose references all lie below `bound`.
pub open spec fn spec_get_node(
    nodes: Seq<Node>,
    n: Node,
    key: Seq<u8>,
    offset: int,
    bound: int,
) -> Option<Seq<u8>>
    decreases bound, 0int,
    when 0 <= bound && node_refs_bounded(n, bound) && spec_db_wf(nodes)
{
    match n {
        Node::Leaf(l) => {
            if 0 <= offset <= 2 * l.path@.len() && offset <= key.len() && key.skip(offset)
                == nibbles_of(l.path@).skip(offset) {
                Some(l.value@)
            } else {
                None
            }
        },
        Node::Extension(e) => {
            let s = e.prefix.nibbles@;
            if 0 <= offset && offset + s.len() <= key.len() && key.subrange(
                offset,
                offset + s.len(),
            ) == s {
                spec_get_at(nodes, e.child, key, offset + s.len())
            } else {
                None
            }
        },
        Node::Branch(b) => {
            if offset >= key.len() || offset < 0 {
                match b.value {
                    Some(v) => Some(v@),
                    None => None,
                }
            } else {
                let nib = key[offset] as int;
                if 0 <= nib < b.choices@.len() && b.choices@[nib].spec_valid() {
                    spec_get_at(nodes, b.choices@[nib], key, offset + 1)
                } else {
                    None
                }
            }
        },
    }
}

/// Offsets stay consistent along every path of the subtree at `rf`: a
/// leaf reached after consuming `offset` nibbles has a key at least that
/// long, and the cursor arithmetic never overflows.
pub open spec fn spec_ok_at(nodes: Seq<Node>, rf: NodeRef, offset: int) -> bool
    decreases rf.index, 1int,
    when spec_db_wf(nodes)
{
    rf.spec_valid() && rf.index < nodes.len() && spec_ok_node(
        nodes,
        nodes[rf.index as int],
        offset,
        rf.index as int,
    )
}

pub open spec fn spec_ok_node(nodes: Seq<Node>, n: Node, offset: int, bound: int) -> bool
    decreases bound, 0int,
    when 0 <= bound && node_refs_bounded(n, bound) && spec_db_wf(nodes)
{
    match n {
        Node::Leaf(l) => 0 <= offset <= 2 * l.path@.len(),
        Node::Extension(e) => 0 <= offset && offset + e.prefix.nibbles@.len() <= usize::MAX
            && spec_ok_at(nodes, e.child, offset + e.prefix.nibbles@.len()),
        Node::Branch(b) => 0 <= offset < usize::MAX && (forall|i: int|
            0 <= i < b.choices@.len() && (#[trigger] b.choices@[i]).spec_valid() ==> spec_ok_at(
                nodes,
                b.choices@[i],
                offset + 1,
            )) && (b.value is Some ==> offset <= 2 * b.path@.len()),
    }
}

/// Extending the arena with new nodes changes no lookup through a node
/// whose references stay below the old length.
pub proof fn lemma_get_node_extend(
    nodes1: Seq<Node>,
    nodes2: Seq<Node>,
    n: Node,
    key: Seq<u8>,
    offset: int,
    bound: int,
)
    requires
        spec_db_wf(nodes1),
        spec_db_wf(nodes2),
        nodes1.len() <= nodes2.len(),
        nodes2.take(nodes1.len() as int) == nodes1,
        0 <= bound <= nodes1.len(),
        node_refs_bounded(n, bound),
    ensures
        spec_get_node(nodes2, n, key, offset, bound) == spec_get_node(
            nodes1,
            n,
            key,
            offset,
            bound,
        ),
        spec_ok_node(nodes1, n, offset, bound) ==> spec_ok_node(nodes2, n, offset, bound),
    decreases bound, 0int,
{
    match n {
        Node::Leaf(_) => {},
        Node::Extension(e) => {
            if e.child.spec_valid() && e.child.index < nodes1.len() {
                assert(nodes2[e.child.index as int] == nodes1[e.child.index as int]);
                lemma_get_node_extend(
                    nodes1,
                    nodes2,
                    nodes1[e.child.index as int],
                    key,
                    offset + e.prefix.nibbles@.len(),
                    e.child.index as int,
                );
            }
        },
        Node::Branch(b) => {
            assert forall|i: int|
                0 <= i < b.choices@.len() && (#[trigger] b.choices@[i]).spec_valid() implies {
                &&& spec_get_at(nodes2, b.choices@[i], key, offset + 1) == spec_get_at(
                    nodes1,
                    b.choices@[i],
                    key,
                    offset + 1,
                )
                &&& spec_ok_at(nodes1, b.choices@[i], offset + 1) ==> spec_ok_at(
                    nodes2,
                    b.choices@[i],
                    offset + 1,
                )
            } by {
                let c = b.choices@[i];
                assert(c.index < bound);
                assert(nodes2[c.index as int] == nodes1[c.index as int]);
                lemma_get_node_extend(
                    nodes1,
                    nodes2,
                    nodes1[c.index as int],
                    key,
                    offset + 1,
                    c.index as int,
                );
            }
        },
    }
}

/// Equivalent nodes (same field views) look up, shape-check and encode
/// the same way.
pub proof fn lemma_get_node_eqv(
    nodes: Seq<Node>,
    a: Node,
    b: Node,
    key: Seq<u8>,
    offset: int,
    bound: int,
)
    requires
        spec_db_wf(nodes),
        0 <= bound,
        node_refs_bounded(a, bound),
        node_eqv(a, b),
    ensures
        node_refs_bounded(b, bound),
        spec_get_node(nodes, a, key, offset, bound) == spec_get_node(nodes, b, key, offset, bound),
        spec_ok_node(nodes, a, offset, bound) == spec_ok_node(nodes, b, offset, bound),
        node_wf(a) == node_wf(b),
        node_dirty(a) == node_dirty(b),
{
    match (a, b) {
        (Node::Leaf(x), Node::Leaf(y)) => {},
        (Node::Extension(x), Node::Extension(y)) => {},
        (Node::Branch(x), Node::Branch(y)) => {
            assert(forall|i: int|
                0 <= i < x.choices@.len() ==> x.choices@[i] == y.choices@[i]);
        },
        _ => {},
    }
}

/// Sixteen empty child slots.
pub fn empty_choices() -> (r: Vec<NodeRef>)
    ensures
        r@.len() == 16,
        forall|i: int| 0 <= i < 16 ==> !(#[trigger] r@[i]).spec_valid(),
{
    let mut v: Vec<NodeRef> = Vec::new();
    let mut i: usize = 0;
    while i < 16
        invariant
            i <= 16,
            v@.len() == i,
            forall|j: int| 0 <= j < i ==> !(#[trigger] v@[j]).spec_valid(),
        decreases 16 - i,
    {
        v.push(NodeRef::empty());
        i = i + 1;
    }
    v
}


/// Result of a lookup against its mathematical counterpart.
pub open spec fn opt_bytes_matches(v: Option<Vec<u8>>, s: Option<Seq<u8>>) -> bool {
    match (v, s) {
        (Some(x), Some(y)) => x@ == y,
        (None, None) => true,
        _ => false,
    }
}

/// How an encoding is embedded in its parent: short ones verbatim,
/// longer ones as their digest, encoded as a 32-byte string item.
pub open spec fn spec_embed(enc: Seq<u8>) -> Seq<u8> {
    if enc.len() < 32 {
        enc
    } else {
        spec_str_encoding(crate::digest::keccak_of(enc))
    }
}

/// The bytes a child slot contributes to its parent's encoding: an
/// empty slot is an empty string item, a real child its embedding.
pub open spec fn spec_child_item(nodes: Seq<Node>, c: NodeRef, offset: int) -> Seq<u8>
    decreases c.index, 2int, 0int,
    when spec_db_wf(nodes)
{
    if c.spec_valid() && c.index < nodes.len() {
        spec_embed(spec_node_encoding(nodes, nodes[c.index as int], offset, c.index as int))
    } else {
        seq![0x80u8]
    }
}

/// Concatenated items of the first `i` child slots of a branch.
pub open spec fn spec_children_encoding(
    nodes: Seq<Node>,
    choices: Seq<NodeRef>,
    i: int,
    offset: int,
    bound: int,
) -> Seq<u8>
    decreases bound, 0int, i,
    when spec_db_wf(nodes) && 0 <= bound && (forall|j: int|
        0 <= j < choices.len() && (#[trigger] choices[j]).spec_valid() ==> choices[j].index
            < bound)
{
    if i <= 0 {
        Seq::empty()
    } else if 0 <= i - 1 < choices.len() && choices[i - 1].spec_valid() {
        spec_children_encoding(nodes, choices, i - 1, offset, bound) + spec_child_item(
            nodes,
            choices[i - 1],
            offset,
        )
    } else {
        spec_children_encoding(nodes, choices, i - 1, offset, bound) + seq![0x80u8]
    }
}

/// Payload of a branch encoding: 16 child items then the value item.
pub open spec fn spec_branch_payload(nodes: Seq<Node>, b: BranchNode, offset: int, bound: int) -> Seq<
    u8,
>
    decreases bound, 0int, 17int,
    when spec_db_wf(nodes) && 0 <= bound && node_refs_bounded(Node::Branch(b), bound)
{
    spec_children_encoding(nodes, b.choices@, 16, offset + 1, bound) + (match b.value {
        Some(v) => spec_str_encoding(v@),
        None => seq![0x80u8],
    })
}

/// Canonical encoding of a node sitting `offset` nibbles deep, with all
/// its references below `bound`.
pub open spec fn spec_node_encoding(nodes: Seq<Node>, n: Node, offset: int, bound: int) -> Seq<u8>
    decreases bound, 1int, 0int,
    when spec_db_wf(nodes) && 0 <= bound && node_refs_bounded(n, bound)
{
    match n {
        Node::Leaf(l) => spec_leaf_encoding(nibbles_of(l.path@).skip(offset), l.value@),
        Node::Extension(e) => {
            let payload = spec_path_encoding(e.prefix.nibbles@, PathKind::Extension)
                + spec_child_item(nodes, e.child, offset + e.prefix.nibbles@.len());
            spec_len_header(0xC0, payload.len() as int) + payload
        },
        Node::Branch(b) => {
            let payload = spec_branch_payload(nodes, b, offset, bound);
            spec_len_header(0xC0, payload.len() as int) + payload
        },
    }
}


/// Extending the arena keeps every existing subtree shape-consistent.
pub proof fn lemma_ok_at_extend(nodes1: Seq<Node>, nodes2: Seq<Node>, c: NodeRef, offset: int)
    requires
        spec_db_wf(nodes1),
        spec_db_wf(nodes2),
        nodes1.len() <= nodes2.len(),
        nodes2.take(nodes1.len() as int) == nodes1,
        spec_ok_at(nodes1, c, offset),
    ensures
        spec_ok_at(nodes2, c, offset),
{
    assert(c.spec_valid() && c.index < nodes1.len());
    assert(nodes2[c.index as int] == nodes1[c.index as int]);
    lemma_get_node_extend(
        nodes1,
        nodes2,
        nodes1[c.index as int],
        Seq::empty(),
        offset,
        c.index as int,
    );
}

/// What any finished insert guarantees of the replacement node: the
/// arena only grew, the node is fresh, well-formed and shape-consistent
/// at its offset, and the inserted key now maps to the inserted value.
pub open spec fn insert_result_post(
    old_nodes: Seq<Node>,
    new_nodes: Seq<Node>,
    path: NibbleSlice,
    value: Seq<u8>,
    node: Node,
) -> bool {
    &&& new_nodes.len() >= old_nodes.len()
    &&& new_nodes.take(old_nodes.len() as int) == old_nodes
    &&& node_wf(node)
    &&& node_dirty(node)
    &&& node_refs_bounded(node, new_nodes.len() as int)
    &&& spec_ok_node(new_nodes, node, path.spec_offset(), new_nodes.len() as int)
    &&& spec_get_node(new_nodes, node, path.nibbles(), path.spec_offset(), new_nodes.len() as int)
        == Some(value)
}

/// The subtree holds exactly two pairs: the nibble key `p` bound to
/// `pv` and the nibble key `l` bound to `lv` (the first wins when they
/// coincide), for every query long enough to have reached this depth.
pub open spec fn two_key_get(
    nodes: Seq<Node>,
    node: Node,
    off: int,
    p: Seq<u8>,
    pv: Seq<u8>,
    l: Seq<u8>,
    lv: Seq<u8>,
    bound: int,
) -> bool {
    forall|k2: Seq<u8>|
        off <= k2.len() ==> #[trigger] spec_get_node(nodes, node, k2, off, bound) == (
        if k2.skip(off) == p.skip(off) {
            Some(pv)
        } else if k2.skip(off) == l.skip(off) {
            Some(lv)
        } else {
            None
        })
}

/// What an insert leaves of every other key: the inserted key now maps
/// to the inserted value, and any other query reads exactly what the
/// old subtree at `rf` held.
pub open spec fn insert_frame(
    old_nodes: Seq<Node>,
    new_nodes: Seq<Node>,
    rf: NodeRef,
    path: NibbleSlice,
    value: Seq<u8>,
    node: Node,
) -> bool {
    forall|k2: Seq<u8>|
        path.spec_offset() <= k2.len() ==> #[trigger] spec_get_node(
            new_nodes,
            node,
            k2,
            path.spec_offset(),
            new_nodes.len() as int,
        ) == (if k2.skip(path.spec_offset()) == path.rest() {
            Some(value)
        } else {
            spec_get_at(old_nodes, rf, k2, path.spec_offset())
        })
}

/// Lookup through a stored node, consuming the path cursor.
#[verifier::loop_isolation(false)]
pub fn get_at(db: &TrieDB, rf: NodeRef, path: NibbleSlice) -> (r: Result<
    Option<ValueRLP>,
    StoreError,
>)
    requires
        db.wf(),
        path.wf(),
        rf.spec_valid(),
        rf.index < db.nodes@.len(),
    ensures
        r matches Ok(v) && opt_bytes_matches(
            v,
            spec_get_at(db.nodes@, rf, path.nibbles(), path.spec_offset()),
        ),
    decreases rf.index,
{
    let node = db.node_at(rf);
    proof {
        assert(node_refs_bounded(db.nodes@[rf.index as int], rf.index as int) && node_wf(
            db.nodes@[rf.index as int],
        ) && node_dirty(db.nodes@[rf.index as int]));
    }
    let ghost key = path.nibbles();
    let ghost o = path.spec_offset();
    match node {
        Node::Leaf(l) => {
            let r = l.get(path);
            proof {
                assert(spec_get_at(db.nodes@, rf, key, o) == spec_get_node(
                    db.nodes@,
                    Node::Leaf(*l),
                    key,
                    o,
                    rf.index as int,
                ));
            }
            r
        },
        Node::Extension(e) => {
            let plen = e.prefix.len();
            if path.len() < plen {
                proof {
                    assert(o + e.prefix.nibbles@.len() > key.len());
                    assert(spec_get_at(db.nodes@, rf, key, o) is None);
                }
                return Ok(None);
            }
            let mut i: usize = 0;
            while i < plen
                invariant
                    db.wf(),
                    path.wf(),
                    key == path.nibbles(),
                    o == path.spec_offset(),
                    plen == e.prefix.nibbles@.len(),
                    o + plen <= key.len(),
                    i <= plen,
                    forall|j: int| 0 <= j < i ==> key[o + j] == e.prefix.nibbles@[j],
                decreases plen - i,
            {
                let a = match path.nth(i) {
                    Some(x) => x,
                    None => {
                        proof {
                            assert(false);
                        }
                        return Err(StoreError::NotFound);
                    },
                };
                let b = e.prefix.nibbles[i];
                if a != b {
                    proof {
                        assert(a == key[o + i]);
                        assert(b == e.prefix.nibbles@[i as int]);
                        if key.subrange(o, o + plen) == e.prefix.nibbles@ {
                            assert(key.subrange(o, o + plen)[i as int] == key[o + i]);
                            assert(key.subrange(o, o + plen)[i as int] == e.prefix.nibbles@[
                                i as int
                            ]);
                            assert(false);
                        }
                        assert(db.nodes@[rf.index as int] is Extension);
                        assert(!(o + e.prefix.nibbles@.len() <= key.len() && key.subrange(
                            o,
                            o + e.prefix.nibbles@.len(),
                        ) == e.prefix.nibbles@));
                        assert(spec_get_node(
                            db.nodes@,
                            db.nodes@[rf.index as int],
                            key,
                            o,
                            rf.index as int,
                        ) is None);
                        assert(spec_get_at(db.nodes@, rf, key, o) is None);
                    }
                    return Ok(None);
                }
                i = i + 1;
            }
            proof {
                assert(key.subrange(o, o + plen) =~= e.prefix.nibbles@);
            }
            let mut p2 = path;
            p2.offset_add(plen);
            let r = get_at(db, e.child, p2);
            proof {
                assert(spec_get_at(db.nodes@, rf, key, o) == spec_get_at(
                    db.nodes@,
                    e.child,
                    key,
                    o + plen,
                ));
            }
            r
        },
        Node::Branch(b) => {
            if path.len() == 0 {
                proof {
                    assert(o >= key.len());
                }
                match &b.value {
                    Some(v) => Ok(Some(clone_bytes(v))),
                    None => Ok(None),
                }
            } else {
                let mut p2 = path;
                let nib = match p2.next() {
                    Some(x) => x,
                    None => {
                        proof {
                            assert(false);
                        }
                        return Err(StoreError::NotFound);
                    },
                };
                proof {
                    lemma_nibbles_bound(p2.spec_data());
                    assert(nib == key[o]);
                    assert(nib < 16);
                }
                let choice = b.choices[nib as usize];
                if choice.is_valid() {
                    proof {
                        assert(choice.index < rf.index);
                    }
                    get_at(db, choice, p2)
                } else {
                    Ok(None)
                }
            }
        },
    }
}

impl Node {
    /// Lookup against this node, whose references resolve in `db`.
    pub fn get(&self, db: &TrieDB, path: NibbleSlice) -> (r: Result<Option<ValueRLP>, StoreError>)
        requires
            db.wf(),
            path.wf(),
            node_wf(*self),
            node_refs_bounded(*self, db.nodes@.len() as int),
        ensures
            r matches Ok(v) && opt_bytes_matches(
                v,
                spec_get_node(
                    db.nodes@,
                    *self,
                    path.nibbles(),
                    path.spec_offset(),
                    db.nodes@.len() as int,
                ),
            ),
    {
        match self {
            Node::Leaf(l) => {
                let r = l.get(path);
                r
            },
            Node::Branch(b) => b.get(db, path),
            Node::Extension(e) => e.get(db, path),
        }
    }
}

impl BranchNode {
    /// Lookup against this branch, whose references resolve in `db`.
    pub fn get(&self, db: &TrieDB, path: NibbleSlice) -> (r: Result<
        Option<ValueRLP>,
        StoreError,
    >)
        requires
            db.wf(),
            path.wf(),
            node_wf(Node::Branch(*self)),
            node_refs_bounded(Node::Branch(*self), db.nodes@.len() as int),
        ensures
            r matches Ok(v) && opt_bytes_matches(
                v,
                spec_get_node(
                    db.nodes@,
                    Node::Branch(*self),
                    path.nibbles(),
                    path.spec_offset(),
                    db.nodes@.len() as int,
                ),
            ),
    {
        let ghost key = path.nibbles();
        let ghost o = path.spec_offset();
        if path.len() == 0 {
            match &self.value {
                Some(v) => Ok(Some(clone_bytes(v))),
                None => Ok(None),
            }
        } else {
            let mut p2 = path;
            let nib = match p2.next() {
                Some(x) => x,
                None => {
                    proof {
                        assert(false);
                    }
                    return Err(StoreError::NotFound);
                },
            };
            proof {
                lemma_nibbles_bound(p2.spec_data());
                assert(nib == key[o]);
                assert(nib < 16);
            }
            let choice = self.choices[nib as usize];
            if choice.is_valid() {
                get_at(db, choice, p2)
            } else {
                Ok(None)
            }
        }
    }
}

impl ExtensionNode {
    /// Lookup against this extension, whose child resolves in `db`.
    #[verifier::loop_isolation(false)]
    pub fn get(&self, db: &TrieDB, path: NibbleSlice) -> (r: Result<
        Option<ValueRLP>,
        StoreError,
    >)
        requires
            db.wf(),
            path.wf(),
            node_wf(Node::Extension(*self)),
            node_refs_bounded(Node::Extension(*self), db.nodes@.len() as int),
        ensures
            r matches Ok(v) && opt_bytes_matches(
                v,
                spec_get_node(
                    db.nodes@,
                    Node::Extension(*self),
                    path.nibbles(),
                    path.spec_offset(),
                    db.nodes@.len() as int,
                ),
            ),
    {
        let ghost key = path.nibbles();
        let ghost o = path.spec_offset();
        let plen = self.prefix.len();
        if path.len() < plen {
            proof {
                assert(o + self.prefix.nibbles@.len() > key.len());
                assert(spec_get_node(
                    db.nodes@,
                    Node::Extension(*self),
                    key,
                    o,
                    db.nodes@.len() as int,
                ) is None);
            }
            return Ok(None);
        }
        let mut i: usize = 0;
        while i < plen
            invariant
                db.wf(),
                path.wf(),
                key == path.nibbles(),
                o == path.spec_offset(),
                plen == self.prefix.nibbles@.len(),
                o + plen <= key.len(),
                i <= plen,
                forall|j: int| 0 <= j < i ==> key[o + j] == self.prefix.nibbles@[j],
            decreases plen - i,
        {
            let a = match path.nth(i) {
                Some(x) => x,
                None => {
                    proof {
                        assert(false);
                    }
                    return Err(StoreError::NotFound);
                },
            };
            let b = self.prefix.nibbles[i];
            if a != b {
                proof {
                    assert(a == key[o + i]);
                    assert(b == self.prefix.nibbles@[i as int]);
                    if key.subrange(o, o + plen) == self.prefix.nibbles@ {
                        assert(key.subrange(o, o + plen)[i as int] == key[o + i]);
                        assert(key.subrange(o, o + plen)[i as int] == self.prefix.nibbles@[
                            i as int
                        ]);
                        assert(false);
                    }
                    assert(node_refs_bounded(
                        Node::Extension(*self),
                        db.nodes@.len() as int,
                    ));
                    assert(spec_db_wf(db.nodes@));
                    assert(!(o + self.prefix.nibbles@.len() <= key.len() && key.subrange(
                        o,
                        o + self.prefix.nibbles@.len(),
                    ) == self.prefix.nibbles@));
                    assert(spec_get_node(
                        db.nodes@,
                        Node::Extension(*self),
                        key,
                        o,
                        db.nodes@.len() as int,
                    ) is None);
                }
                return Ok(None);
            }
            i = i + 1;
        }
        proof {
            assert(key.subrange(o, o + plen) =~= self.prefix.nibbles@);
        }
        let mut p2 = path;
        p2.offset_add(plen);
        get_at(db, self.child, p2)
    }
}


/// Digest of the stored node at `rf`, sitting `path_offset` nibbles
/// deep in the trie.
#[verifier::loop_isolation(false)]
pub fn compute_hash_at(db: &TrieDB, rf: NodeRef, path_offset: usize) -> (r: Result<
    NodeHashRef,
    StoreError,
>)
    requires
        db.wf(),
        rf.spec_valid(),
        rf.index < db.nodes@.len(),
        spec_ok_at(db.nodes@, rf, path_offset as int),
    ensures
        r matches Ok(h) && spec_hash_matches(
            h,
            spec_node_encoding(
                db.nodes@,
                db.nodes@[rf.index as int],
                path_offset as int,
                rf.index as int,
            ),
        ) && h.wf(),
    decreases rf.index, 0int,
{
    let node = db.node_at(rf);
    proof {
        assert(node_refs_bounded(db.nodes@[rf.index as int], rf.index as int) && node_wf(
            db.nodes@[rf.index as int],
        ) && node_dirty(db.nodes@[rf.index as int]));
    }
    match node {
        Node::Leaf(l) => {
            let r = l.compute_hash(path_offset);
            proof {
                assert(spec_node_encoding(
                    db.nodes@,
                    db.nodes@[rf.index as int],
                    path_offset as int,
                    rf.index as int,
                ) == spec_leaf_encoding(
                    nibbles_of(l.path@).skip(path_offset as int),
                    l.value@,
                ));
            }
            r
        },
        Node::Extension(e) => {
            let child_offset = path_offset + e.prefix.len();
            let item = match child_item_bytes(db, e.child, child_offset) {
                Ok(v) => v,
                Err(er) => {
                    return Err(er);
                },
            };
            let mut payload = NodeHasher::new();
            payload.write_path_vec(&e.prefix, PathKind::Extension);
            payload.write_raw(&item);
            let mut hasher = NodeHasher::new();
            hasher.write_list_header(payload.buffer.len());
            hasher.write_raw(&payload.buffer);
            proof {
                assert(payload.buffer@ =~= spec_path_encoding(
                    e.prefix.nibbles@,
                    PathKind::Extension,
                ) + spec_child_item(db.nodes@, e.child, child_offset as int));
                assert(hasher.buffer@ =~= spec_node_encoding(
                    db.nodes@,
                    db.nodes@[rf.index as int],
                    path_offset as int,
                    rf.index as int,
                ));
            }
            Ok(hasher.finalize())
        },
        Node::Branch(b) => {
            let mut payload = NodeHasher::new();
            let mut i: usize = 0;
            while i < 16
                invariant
                    payload.buffer@ == spec_children_encoding(
                        db.nodes@,
                        b.choices@,
                        i as int,
                        path_offset + 1,
                        rf.index as int,
                    ),
                    i <= 16,
                decreases 16 - i,
            {
                let c = b.choices[i];
                let item = if c.is_valid() {
                    proof {
                        assert(c.index < rf.index);
                    }
                    match child_item_bytes(db, c, path_offset + 1) {
                        Ok(v) => v,
                        Err(er) => {
                            return Err(er);
                        },
                    }
                } else {
                    let mut v: Vec<u8> = Vec::new();
                    v.push(0x80);
                    proof {
                        assert(v@ =~= seq![0x80u8]);
                    }
                    v
                };
                payload.write_raw(&item);
                i = i + 1;
            }
            match &b.value {
                Some(v) => payload.write_bytes(v),
                None => {
                    let empty_value: Vec<u8> = Vec::new();
                    payload.write_bytes(&empty_value);
                    proof {
                        assert(spec_str_encoding(Seq::<u8>::empty()) =~= seq![0x80u8]);
                    }
                },
            }
            proof {
                assert(payload.buffer@ =~= spec_branch_payload(
                    db.nodes@,
                    *b,
                    path_offset as int,
                    rf.index as int,
                ));
            }
            let mut hasher = NodeHasher::new();
            hasher.write_list_header(payload.buffer.len());
            hasher.write_raw(&payload.buffer);
            proof {
                assert(hasher.buffer@ =~= spec_node_encoding(
                    db.nodes@,
                    db.nodes@[rf.index as int],
                    path_offset as int,
                    rf.index as int,
                ));
            }
            Ok(hasher.finalize())
        },
    }
}

/// Bytes a child slot contributes to its parent's encoding.
fn child_item_bytes(db: &TrieDB, c: NodeRef, offset: usize) -> (r: Result<Vec<u8>, StoreError>)
    requires
        db.wf(),
        c.spec_valid() ==> c.index < db.nodes@.len() && spec_ok_at(db.nodes@, c, offset as int),
    ensures
        r matches Ok(v) && v@ == spec_child_item(db.nodes@, c, offset as int),
    decreases c.index, 1int,
{
    if c.is_valid() {
        let h = match compute_hash_at(db, c, offset) {
            Ok(h) => h,
            Err(e) => {
                return Err(e);
            },
        };
        let ghost enc = spec_node_encoding(
            db.nodes@,
            db.nodes@[c.index as int],
            offset as int,
            c.index as int,
        );
        match h {
            NodeHashRef::Inline(v) => {
                proof {
                    assert(enc.len() < 32);
                    assert(v@ == spec_embed(enc));
                }
                Ok(v)
            },
            NodeHashRef::Hashed(v) => {
                let mut hh = NodeHasher::new();
                hh.write_bytes(&v);
                proof {
                    assert(enc.len() >= 32);
                    assert(hh.buffer@ =~= spec_embed(enc));
                }
                Ok(hh.buffer)
            },
        }
    } else {
        let mut v: Vec<u8> = Vec::new();
        v.push(0x80);
        proof {
            assert(v@ =~= seq![0x80u8]);
        }
        Ok(v)
    }
}

} // verus!
