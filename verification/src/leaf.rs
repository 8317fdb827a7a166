use vstd::prelude::*;

use crate::db::TrieDB;
use crate::error::StoreError;
use crate::hashing::{
    spec_hash_matches, spec_len_header, spec_path_encoding, spec_str_encoding, NodeHash,
    NodeHashRef, NodeHasher, PathKind,
};
use crate::nibble::{
    clone_bytes, lemma_common_prefix_props, lemma_nibbles_bound, lemma_skip_shift,
    lemma_skip_split, nibbles_of, nth_nibble, slice_to_vec, spec_common_prefix_len, NibbleSlice,
};
use crate::node::{
    empty_choices, lemma_get_node_extend, node_dirty, node_eqv, node_refs_bounded, node_wf,
    spec_get_at, spec_get_node, spec_ok_at, spec_ok_node, two_key_get, BranchNode, ExtensionNode,
    Node, PathRLP, ValueRLP,
};

verus! {

/// Terminal node: one key/value pair; `path` holds the full key, and the
/// pair is addressed by the nibbles of `path` past the consumed offset.
#[derive(Debug)]
pub struct LeafNode {
    pub hash: NodeHash,
    pub path: PathRLP,
    pub value: ValueRLP,
}

/// Canonical encoding of a leaf: a two-item structure of the compact
/// remaining path (tagged as a leaf) and the value.
pub open spec fn spec_leaf_encoding(rest: Seq<u8>, value: Seq<u8>) -> Seq<u8> {
    spec_len_header(
        0xC0,
        (spec_path_encoding(rest, PathKind::Leaf) + spec_str_encoding(value)).len() as int,
    ) + spec_path_encoding(rest, PathKind::Leaf) + spec_str_encoding(value)
}

/// A clean hash cell of a leaf must reflect its current encoding.
pub open spec fn leaf_hash_wf(l: LeafNode, path_offset: int) -> bool {
    match l.hash.cached {
        Some(h) => spec_hash_matches(
            h,
            spec_leaf_encoding(nibbles_of(l.path@).skip(path_offset), l.value@),
        ) && h.wf(),
        None => true,
    }
}

/// What a finished leaf insert guarantees: the arena only grew, the
/// replacement node is fresh and well-formed, the inserted key now maps
/// to the inserted value, and a differing leaf key keeps its old value;
/// an exact match rewrites the leaf in place, a split yields a branch,
/// wrapped in an extension exactly when a common prefix was factored out.
pub open spec fn leaf_insert_post(
    l: LeafNode,
    old_nodes: Seq<Node>,
    new_nodes: Seq<Node>,
    path: NibbleSlice,
    value: Seq<u8>,
    node: Node,
) -> bool {
    let o = path.spec_offset();
    let p_rest = path.rest();
    let l_rest = nibbles_of(l.path@).skip(o);
    let k = spec_common_prefix_len(p_rest, l_rest);
    &&& new_nodes.len() >= old_nodes.len()
    &&& new_nodes.len() <= old_nodes.len() + 3
    &&& new_nodes.take(old_nodes.len() as int) == old_nodes
    &&& node_wf(node)
    &&& node_dirty(node)
    &&& node_refs_bounded(node, new_nodes.len() as int)
    &&& spec_ok_node(new_nodes, node, o, new_nodes.len() as int)
    &&& spec_get_node(new_nodes, node, path.nibbles(), o, new_nodes.len() as int) == Some(value)
    &&& (path.spec_cmp_rest(l.path@) ==> (node matches Node::Leaf(l2) && l2.path@ == l.path@
        && l2.value@ == value) && new_nodes == old_nodes)
    &&& (!path.spec_cmp_rest(l.path@) ==> spec_get_node(
        new_nodes,
        node,
        nibbles_of(l.path@),
        o,
        new_nodes.len() as int,
    ) == Some(l.value@))
    &&& (!path.spec_cmp_rest(l.path@) && k == 0 ==> node is Branch)
    &&& (!path.spec_cmp_rest(l.path@) && k > 0 ==> (node matches Node::Extension(e)
        && e.prefix.nibbles@ == p_rest.take(k)))
    &&& two_key_get(
        new_nodes,
        node,
        o,
        path.nibbles(),
        value,
        nibbles_of(l.path@),
        l.value@,
        new_nodes.len() as int,
    )
}

impl LeafNode {
    pub fn new(path: PathRLP, value: ValueRLP) -> (r: LeafNode)
        ensures
            r.hash.is_dirty(),
            r.path@ == path@,
            r.value@ == value@,
    {
        LeafNode { hash: NodeHash::dirty(), path, value }
    }

    pub fn duplicate(&self) -> (r: LeafNode)
        ensures
            node_eqv(Node::Leaf(r), Node::Leaf(*self)),
    {
        LeafNode {
            hash: self.hash.duplicate(),
            path: clone_bytes(&self.path),
            value: clone_bytes(&self.value),
        }
    }

    /// The value, exactly when the remaining key matches this leaf's
    /// remaining path; "not found" otherwise.
    pub fn get(&self, path: NibbleSlice) -> (r: Result<Option<ValueRLP>, StoreError>)
        requires
            path.wf(),
            2 * self.path@.len() <= usize::MAX,
        ensures
            r matches Ok(v),
            path.spec_cmp_rest(self.path@) ==> (r matches Ok(v) && v matches Some(x) && x@
                == self.value@),
            !path.spec_cmp_rest(self.path@) ==> (r matches Ok(v) && v is None),
    {
        if path.cmp_rest(self.path.as_slice()) {
            Ok(Some(clone_bytes(&self.value)))
        } else {
            Ok(None)
        }
    }

    /// Insert a key/value pair at this leaf: replace the value on an
    /// exact key match, otherwise split into a branch (under an
    /// extension when a common prefix remains) holding both pairs.
    pub fn insert(self, db: &mut TrieDB, path: NibbleSlice, value: ValueRLP) -> (res: Result<
        Node,
        StoreError,
    >)
        requires
            old(db).wf(),
            path.wf(),
            2 * self.path@.len() <= usize::MAX,
            path.spec_offset() <= 2 * self.path@.len(),
            old(db).nodes@.len() + 4 <= usize::MAX,
        ensures
            final(db).wf(),
            res matches Ok(node) && leaf_insert_post(
                self,
                old(db).nodes@,
                final(db).nodes@,
                path,
                value@,
                node,
            ),
    {
        let mut this = self;
        this.hash.mark_as_dirty();
        proof {
            lemma_common_prefix_props(path.rest(), nibbles_of(self.path@).skip(path.spec_offset()));
        }
        if path.cmp_rest(this.path.as_slice()) {
            let node = LeafNode { hash: NodeHash::dirty(), path: this.path, value };
            proof {
                assert(path.nibbles().skip(path.spec_offset()) == nibbles_of(node.path@).skip(
                    path.spec_offset(),
                ));
                assert(db.nodes@.take(db.nodes@.len() as int) =~= db.nodes@);
                assert(spec_get_node(
                    db.nodes@,
                    Node::Leaf(node),
                    path.nibbles(),
                    path.spec_offset(),
                    db.nodes@.len() as int,
                ) == Some(node.value@));
                assert forall|k2: Seq<u8>|
                    path.spec_offset() <= k2.len() implies #[trigger] spec_get_node(
                    db.nodes@,
                    Node::Leaf(node),
                    k2,
                    path.spec_offset(),
                    db.nodes@.len() as int,
                ) == (if k2.skip(path.spec_offset()) == path.nibbles().skip(path.spec_offset()) {
                    Some(node.value@)
                } else if k2.skip(path.spec_offset()) == nibbles_of(self.path@).skip(
                    path.spec_offset(),
                ) {
                    Some(self.value@)
                } else {
                    None
                }) by {
                    assert(nibbles_of(node.path@) == nibbles_of(self.path@));
                }
                assert(leaf_insert_post(self, old(db).nodes@, db.nodes@, path, node.value@, Node::Leaf(node)));
            }
            Ok(Node::Leaf(node))
        } else {
            let mut value_path = NibbleSlice::new(this.path.as_slice());
            value_path.offset_add(path.offset());
            let offset = path.count_prefix_slice(&value_path);

            let mut path_branch = path.duplicate();
            path_branch.offset_add(offset);

            let absolute_offset = path_branch.offset();
            let ghost o = path.spec_offset();
            let ghost p_nibs = path.nibbles();
            let ghost l_nibs = nibbles_of(self.path@);
            let ghost k = offset as int;
            proof {
                assert(k == spec_common_prefix_len(p_nibs.skip(o), l_nibs.skip(o)));
                assert(forall|j: int| 0 <= j < k ==> p_nibs.skip(o)[j] == l_nibs.skip(o)[j]);
            }
            let ghost this0 = this;
            let ghost v0 = value@;
            let branch_node = if absolute_offset == 2 * path.data_len() {
                // The new key ends at the fork: the branch carries the new
                // value, with the old leaf as its only populated choice.
                let mut choices = empty_choices();
                proof {
                    if k == l_nibs.skip(o).len() {
                        assert(p_nibs.skip(o) =~= l_nibs.skip(o));
                    }
                    assert(absolute_offset < 2 * self.path@.len());
                }
                let nib = nth_nibble(&this.path, absolute_offset);
                let self_ref = match db.insert_node(Node::Leaf(this)) {
                    Ok(rf) => rf,
                    Err(e) => {
                        return Err(e);
                    },
                };
                choices[nib as usize] = self_ref;
                let bn = BranchNode::new_with_value(choices, path.data(), value);
                proof {
                    let nodes1 = db.nodes@;
                    let bnd = nodes1.len() as int;
                    lemma_nibbles_bound(this0.path@);
                    assert(nodes1[self_ref.index as int] == Node::Leaf(this0));
                    assert(o + k == p_nibs.len());
                    assert(spec_get_node(nodes1, Node::Branch(bn), p_nibs, o + k, bnd) == Some(
                        v0,
                    ));
                    assert(l_nibs[o + k] == nib);
                    assert(bn.choices@[nib as int] == self_ref);
                    assert(l_nibs.skip(o + k + 1) =~= nibbles_of(this0.path@).skip(o + k + 1));
                    assert(spec_get_node(
                        nodes1,
                        Node::Leaf(this0),
                        l_nibs,
                        o + k + 1,
                        self_ref.index as int,
                    ) == Some(this0.value@));
                    assert(spec_get_at(nodes1, self_ref, l_nibs, o + k + 1) == Some(
                        this0.value@,
                    ));
                    assert(l_nibs.len() > o + k);
                    assert(spec_get_node(nodes1, Node::Branch(bn), l_nibs, o + k, bnd) == Some(
                        this0.value@,
                    ));
                    assert(spec_ok_node(
                        nodes1,
                        Node::Leaf(this0),
                        o + k + 1,
                        self_ref.index as int,
                    ));
                    assert(spec_ok_at(nodes1, self_ref, o + k + 1));
                    assert(spec_ok_node(nodes1, Node::Branch(bn), o + k, bnd));
                    assert forall|k2: Seq<u8>|
                        o + k <= k2.len() implies #[trigger] spec_get_node(
                        nodes1,
                        Node::Branch(bn),
                        k2,
                        o + k,
                        bnd,
                    ) == (if k2.skip(o + k) == p_nibs.skip(o + k) {
                        Some(v0)
                    } else if k2.skip(o + k) == l_nibs.skip(o + k) {
                        Some(this0.value@)
                    } else {
                        None
                    }) by {
                        if k2.len() == o + k {
                            assert(k2.skip(o + k) =~= p_nibs.skip(o + k));
                        } else {
                            let nib2 = k2[o + k];
                            assert(k2.skip(o + k).len() > 0);
                            assert(k2.skip(o + k)[0] == nib2);
                            assert(p_nibs.skip(o + k).len() == 0);
                            lemma_skip_shift(k2, l_nibs, o + k);
                            if nib2 == nib {
                                assert(spec_get_at(nodes1, self_ref, k2, o + k + 1)
                                    == spec_get_node(
                                    nodes1,
                                    Node::Leaf(this0),
                                    k2,
                                    o + k + 1,
                                    self_ref.index as int,
                                ));
                            } else {
                                if k2.skip(o + k) == l_nibs.skip(o + k) {
                                    assert(false);
                                }
                                assert(!bn.choices@[nib2 as int].spec_valid() || !(0 <= nib2 < 16));
                            }
                        }
                    }
                }
                bn
            } else if absolute_offset == 2 * this.path.len() {
                // The old key ends at the fork: the branch carries the old
                // value, with a fresh leaf for the new key as its choice.
                let new_leaf = LeafNode::new(path.data(), value);
                let ghost nl = new_leaf;
                let child_ref = match db.insert_node(Node::Leaf(new_leaf)) {
                    Ok(rf) => rf,
                    Err(e) => {
                        return Err(e);
                    },
                };
                let mut choices = empty_choices();
                proof {
                    if k == p_nibs.skip(o).len() {
                        assert(p_nibs.skip(o) =~= l_nibs.skip(o));
                    }
                    assert(o + k < p_nibs.len());
                }
                let nib = match path_branch.next() {
                    Some(x) => x,
                    None => {
                        return Err(StoreError::NotFound);
                    },
                };
                proof {
                    lemma_nibbles_bound(path.spec_data());
                    assert(nib == p_nibs[o + k]);
                    assert(nib < 16);
                }
                choices[nib as usize] = child_ref;
                let bn = BranchNode::new_with_value(choices, this.path, this.value);
                proof {
                    let nodes1 = db.nodes@;
                    let bnd = nodes1.len() as int;
                    assert(spec_get_node(
                        nodes1,
                        nodes1[child_ref.index as int],
                        p_nibs,
                        o + k + 1,
                        child_ref.index as int,
                    ) == Some(v0));
                    assert(spec_get_at(nodes1, child_ref, p_nibs, o + k + 1) == Some(v0));
                    assert(bn.choices@[nib as int] == child_ref);
                    assert(spec_get_node(nodes1, Node::Branch(bn), p_nibs, o + k, bnd) == Some(
                        v0,
                    ));
                    assert(o + k == l_nibs.len());
                    assert(spec_get_node(nodes1, Node::Branch(bn), l_nibs, o + k, bnd) == Some(
                        this0.value@,
                    ));
                    assert(spec_ok_at(nodes1, child_ref, o + k + 1));
                    assert(spec_ok_node(nodes1, Node::Branch(bn), o + k, bnd));
                    assert(nodes1[child_ref.index as int] == Node::Leaf(nl));
                    assert forall|k2: Seq<u8>|
                        o + k <= k2.len() implies #[trigger] spec_get_node(
                        nodes1,
                        Node::Branch(bn),
                        k2,
                        o + k,
                        bnd,
                    ) == (if k2.skip(o + k) == p_nibs.skip(o + k) {
                        Some(v0)
                    } else if k2.skip(o + k) == l_nibs.skip(o + k) {
                        Some(this0.value@)
                    } else {
                        None
                    }) by {
                        if k2.len() == o + k {
                            assert(k2.skip(o + k) =~= l_nibs.skip(o + k));
                            assert(p_nibs.skip(o + k).len() > 0);
                        } else {
                            let nib2 = k2[o + k];
                            assert(k2.skip(o + k).len() > 0);
                            assert(k2.skip(o + k)[0] == nib2);
                            assert(l_nibs.skip(o + k).len() == 0);
                            lemma_skip_shift(k2, p_nibs, o + k);
                            if nib2 == nib {
                                assert(spec_get_at(nodes1, child_ref, k2, o + k + 1)
                                    == spec_get_node(
                                    nodes1,
                                    Node::Leaf(nl),
                                    k2,
                                    o + k + 1,
                                    child_ref.index as int,
                                ));
                                assert(nibbles_of(nl.path@) == p_nibs);
                            } else {
                                if k2.skip(o + k) == p_nibs.skip(o + k) {
                                    assert(false);
                                }
                                assert(!bn.choices@[nib2 as int].spec_valid() || !(0 <= nib2 < 16));
                            }
                        }
                    }
                }
                bn
            } else {
                // General divergence: two fresh leaves under a plain branch.
                let new_leaf = LeafNode::new(path.data(), value);
                let ghost nl = new_leaf;
                let child_ref = match db.insert_node(Node::Leaf(new_leaf)) {
                    Ok(rf) => rf,
                    Err(e) => {
                        return Err(e);
                    },
                };
                let mut choices = empty_choices();
                proof {
                    assert(k < l_nibs.skip(o).len());
                    assert(absolute_offset < 2 * this.path@.len());
                }
                let nib_old = nth_nibble(&this.path, absolute_offset);
                let self_ref = match db.insert_node(Node::Leaf(this)) {
                    Ok(rf) => rf,
                    Err(e) => {
                        return Err(e);
                    },
                };
                choices[nib_old as usize] = self_ref;
                proof {
                    if k == p_nibs.skip(o).len() {
                        assert(p_nibs.skip(o) =~= l_nibs.skip(o));
                    }
                    assert(o + k < p_nibs.len());
                }
                let nib_new = match path_branch.next() {
                    Some(x) => x,
                    None => {
                        return Err(StoreError::NotFound);
                    },
                };
                proof {
                    lemma_nibbles_bound(path.spec_data());
                    lemma_nibbles_bound(this0.path@);
                    assert(nib_new == p_nibs[o + k]);
                    assert(nib_old == l_nibs[o + k]);
                    assert(p_nibs.skip(o)[k] != l_nibs.skip(o)[k]);
                    assert(nib_new != nib_old);
                    assert(nib_new < 16);
                }
                choices[nib_new as usize] = child_ref;
                let bn = BranchNode::new(choices);
                proof {
                    let nodes1 = db.nodes@;
                    let bnd = nodes1.len() as int;
                    assert(bn.choices@[nib_new as int] == child_ref);
                    assert(bn.choices@[nib_old as int] == self_ref);
                    assert(spec_get_node(
                        nodes1,
                        nodes1[child_ref.index as int],
                        p_nibs,
                        o + k + 1,
                        child_ref.index as int,
                    ) == Some(v0));
                    assert(spec_get_at(nodes1, child_ref, p_nibs, o + k + 1) == Some(v0));
                    assert(spec_get_node(nodes1, Node::Branch(bn), p_nibs, o + k, bnd) == Some(
                        v0,
                    ));
                    assert(nodes1[self_ref.index as int] == Node::Leaf(this0));
                    assert(l_nibs.skip(o + k + 1) =~= nibbles_of(this0.path@).skip(o + k + 1));
                    assert(spec_get_node(
                        nodes1,
                        Node::Leaf(this0),
                        l_nibs,
                        o + k + 1,
                        self_ref.index as int,
                    ) == Some(this0.value@));
                    assert(spec_get_at(nodes1, self_ref, l_nibs, o + k + 1) == Some(
                        this0.value@,
                    ));
                    assert(l_nibs.len() > o + k);
                    assert(spec_get_node(nodes1, Node::Branch(bn), l_nibs, o + k, bnd) == Some(
                        this0.value@,
                    ));
                    assert(spec_ok_at(nodes1, self_ref, o + k + 1));
                    assert(spec_ok_at(nodes1, child_ref, o + k + 1));
                    assert(spec_ok_node(nodes1, Node::Branch(bn), o + k, bnd));
                    assert forall|k2: Seq<u8>|
                        o + k <= k2.len() implies #[trigger] spec_get_node(
                        nodes1,
                        Node::Branch(bn),
                        k2,
                        o + k,
                        bnd,
                    ) == (if k2.skip(o + k) == p_nibs.skip(o + k) {
                        Some(v0)
                    } else if k2.skip(o + k) == l_nibs.skip(o + k) {
                        Some(this0.value@)
                    } else {
                        None
                    }) by {
                        if k2.len() == o + k {
                            assert(p_nibs.skip(o + k).len() > 0);
                            assert(l_nibs.skip(o + k).len() > 0);
                        } else {
                            let nib2 = k2[o + k];
                            assert(k2.skip(o + k).len() > 0);
                            assert(k2.skip(o + k)[0] == nib2);
                            lemma_skip_shift(k2, p_nibs, o + k);
                            lemma_skip_shift(k2, l_nibs, o + k);
                            if nib2 == nib_new {
                                assert(spec_get_at(nodes1, child_ref, k2, o + k + 1)
                                    == spec_get_node(
                                    nodes1,
                                    Node::Leaf(nl),
                                    k2,
                                    o + k + 1,
                                    child_ref.index as int,
                                ));
                                assert(nibbles_of(nl.path@) == p_nibs);
                            } else if nib2 == nib_old {
                                assert(spec_get_at(nodes1, self_ref, k2, o + k + 1)
                                    == spec_get_node(
                                    nodes1,
                                    Node::Leaf(this0),
                                    k2,
                                    o + k + 1,
                                    self_ref.index as int,
                                ));
                            } else {
                                if k2.skip(o + k) == p_nibs.skip(o + k) {
                                    assert(false);
                                }
                                if k2.skip(o + k) == l_nibs.skip(o + k) {
                                    assert(false);
                                }
                                assert(!bn.choices@[nib2 as int].spec_valid() || !(0 <= nib2 < 16));
                            }
                        }
                    }
                }
                bn
            };

            let ghost nodes_mid = db.nodes@;
            let ghost bnd_mid = nodes_mid.len() as int;
            proof {
                assert(spec_get_node(nodes_mid, Node::Branch(branch_node), p_nibs, o + k, bnd_mid)
                    == Some(v0));
                assert(spec_get_node(nodes_mid, Node::Branch(branch_node), l_nibs, o + k, bnd_mid)
                    == Some(this0.value@));
                assert(spec_ok_node(nodes_mid, Node::Branch(branch_node), o + k, bnd_mid));
                assert(node_refs_bounded(Node::Branch(branch_node), bnd_mid));
                assert(nodes_mid.take(old(db).nodes@.len() as int) =~= old(db).nodes@);
            }
            let final_node = if offset != 0 {
                let prefix = path.split_to_vec(offset);
                let ghost bn0 = branch_node;
                let branch_ref = match db.insert_node(Node::Branch(branch_node)) {
                    Ok(rf) => rf,
                    Err(e) => {
                        return Err(e);
                    },
                };
                let ext = ExtensionNode::new(prefix, branch_ref);
                proof {
                    let nodes3 = db.nodes@;
                    assert(nodes3.take(bnd_mid) =~= nodes_mid);
                    lemma_get_node_extend(
                        nodes_mid,
                        nodes3,
                        Node::Branch(bn0),
                        p_nibs,
                        o + k,
                        bnd_mid,
                    );
                    lemma_get_node_extend(
                        nodes_mid,
                        nodes3,
                        Node::Branch(bn0),
                        l_nibs,
                        o + k,
                        bnd_mid,
                    );
                    assert(nodes3[branch_ref.index as int] == Node::Branch(bn0));
                    assert(p_nibs.subrange(o, o + k) =~= p_nibs.skip(o).take(k));
                    assert(ext.prefix.nibbles@ == p_nibs.subrange(o, o + k));
                    assert(spec_get_at(nodes3, branch_ref, p_nibs, o + k) == Some(v0));
                    assert(spec_get_node(
                        nodes3,
                        Node::Extension(ext),
                        p_nibs,
                        o,
                        nodes3.len() as int,
                    ) == Some(v0));
                    assert(k <= l_nibs.skip(o).len());
                    assert(o + k <= l_nibs.len());
                    assert(l_nibs.subrange(o, o + k) =~= p_nibs.subrange(o, o + k));
                    assert(spec_get_at(nodes3, branch_ref, l_nibs, o + k) == Some(this0.value@));
                    assert(spec_get_node(
                        nodes3,
                        Node::Extension(ext),
                        l_nibs,
                        o,
                        nodes3.len() as int,
                    ) == Some(this0.value@));
                    assert(spec_ok_at(nodes3, branch_ref, o + k));
                    assert(spec_ok_node(nodes3, Node::Extension(ext), o, nodes3.len() as int));
                    assert forall|k2: Seq<u8>|
                        o <= k2.len() implies #[trigger] spec_get_node(
                        nodes3,
                        Node::Extension(ext),
                        k2,
                        o,
                        nodes3.len() as int,
                    ) == (if k2.skip(o) == p_nibs.skip(o) {
                        Some(v0)
                    } else if k2.skip(o) == l_nibs.skip(o) {
                        Some(this0.value@)
                    } else {
                        None
                    }) by {
                        lemma_get_node_extend(
                            nodes_mid,
                            nodes3,
                            Node::Branch(bn0),
                            k2,
                            o + k,
                            bnd_mid,
                        );
                        if o + k <= k2.len() {
                            lemma_skip_split(k2, p_nibs, o, k);
                            lemma_skip_split(k2, l_nibs, o, k);
                            if k2.subrange(o, o + k) == ext.prefix.nibbles@ {
                                assert(spec_get_at(nodes3, branch_ref, k2, o + k)
                                    == spec_get_node(
                                    nodes_mid,
                                    Node::Branch(bn0),
                                    k2,
                                    o + k,
                                    bnd_mid,
                                ));
                            } else {
                                if k2.skip(o) == p_nibs.skip(o) {
                                    assert(k2.subrange(o, o + k) =~= p_nibs.subrange(o, o + k));
                                    assert(false);
                                }
                                if k2.skip(o) == l_nibs.skip(o) {
                                    assert(k2.subrange(o, o + k) =~= l_nibs.subrange(o, o + k));
                                    assert(false);
                                }
                            }
                        } else {
                            if k2.skip(o) == p_nibs.skip(o) {
                                assert(k2.skip(o).len() == p_nibs.skip(o).len());
                                assert(false);
                            }
                            if k2.skip(o) == l_nibs.skip(o) {
                                assert(k2.skip(o).len() == l_nibs.skip(o).len());
                                assert(false);
                            }
                        }
                    }
                    assert(two_key_get(
                        nodes3,
                        Node::Extension(ext),
                        o,
                        p_nibs,
                        v0,
                        l_nibs,
                        this0.value@,
                        nodes3.len() as int,
                    ));
                }
                Node::Extension(ext)
            } else {
                proof {
                    assert(two_key_get(
                        db.nodes@,
                        Node::Branch(branch_node),
                        o,
                        p_nibs,
                        v0,
                        l_nibs,
                        this0.value@,
                        db.nodes@.len() as int,
                    ));
                }
                Node::Branch(branch_node)
            };
            proof {
                assert(db.nodes@.take(old(db).nodes@.len() as int) =~= old(db).nodes@);
                assert(this0.value@ == self.value@);
                assert(leaf_insert_post(self, old(db).nodes@, db.nodes@, path, v0, final_node));
            }
            Ok(final_node)
        }
    }

    /// Remove the pair held here: on an exact key match the leaf
    /// disappears and yields its value; otherwise nothing changes.
    pub fn remove(self, path: NibbleSlice) -> (r: Result<
        (Option<Node>, Option<ValueRLP>),
        StoreError,
    >)
        requires
            path.wf(),
            2 * self.path@.len() <= usize::MAX,
        ensures
            r matches Ok(pair),
            path.spec_cmp_rest(self.path@) ==> (r matches Ok(pair) && pair.0 is None && (
            pair.1 matches Some(v) && v@ == self.value@)),
            !path.spec_cmp_rest(self.path@) ==> (r matches Ok(pair) && pair.1 is None && (
            pair.0 matches Some(n) && node_eqv(n, Node::Leaf(self)))),
    {
        Ok(
            if path.cmp_rest(self.path.as_slice()) {
                (None, Some(self.value))
            } else {
                (Some(Node::Leaf(self)), None)
            },
        )
    }

    /// Digest of this leaf's canonical encoding at the given consumed
    /// offset, served from the cache when it is clean.
    pub fn compute_hash(&self, path_offset: usize) -> (r: Result<NodeHashRef, StoreError>)
        requires
            2 * self.path@.len() <= usize::MAX,
            path_offset <= 2 * self.path@.len(),
            leaf_hash_wf(*self, path_offset as int),
        ensures
            r matches Ok(h) && spec_hash_matches(
                h,
                spec_leaf_encoding(nibbles_of(self.path@).skip(path_offset as int), self.value@),
            ) && h.wf(),
    {
        if let Some(hash) = self.hash.extract_ref() {
            return Ok(hash);
        }
        let mut path_slice = NibbleSlice::new(self.path.as_slice());
        path_slice.offset_add(path_offset);

        Ok(compute_leaf_hash(path_slice, self.value.as_slice()))
    }
}

/// Digest of the leaf encoding built from a remaining path and a value.
pub fn compute_leaf_hash(path: NibbleSlice, value: &[u8]) -> (r: NodeHashRef)
    requires
        path.wf(),
    ensures
        spec_hash_matches(r, spec_leaf_encoding(path.rest(), value@)),
        r.wf(),
{
    let value_vec = slice_to_vec(value);
    let mut payload = NodeHasher::new();
    payload.write_path_slice(&path, PathKind::Leaf);
    payload.write_bytes(&value_vec);
    let mut hasher = NodeHasher::new();
    hasher.write_list_header(payload.buffer.len());
    hasher.write_raw(&payload.buffer);
    proof {
        assert(payload.buffer@ =~= spec_path_encoding(path.rest(), PathKind::Leaf)
            + spec_str_encoding(value@));
        assert(hasher.buffer@ =~= spec_leaf_encoding(path.rest(), value@));
    }
    hasher.finalize()
}

} // verus!
