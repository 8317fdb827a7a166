use vstd::prelude::*;

use crate::db::TrieDB;
use crate::digest::{keccak256, keccak_of};
use crate::error::StoreError;
use crate::hashing::NodeHashRef;
use crate::leaf::LeafNode;
use crate::nibble::{lemma_nibbles_bound, nibbles_of, NibbleSlice, NibbleVec};
use crate::nibble::{lemma_skip_shift, lemma_skip_split};
use crate::node::{
    compute_hash_at, empty_choices, get_at, insert_frame, insert_result_post, lemma_get_node_eqv,
    lemma_get_node_extend, lemma_ok_at_extend, node_dirty, node_refs_bounded, node_wf,
    opt_bytes_matches, spec_db_wf, spec_get_at, spec_get_node, spec_node_encoding, spec_ok_at,
    spec_ok_node, BranchNode, ExtensionNode, Node, PathRLP, ValueRLP,
};
use crate::node_ref::NodeRef;

verus! {

/// Insert below the stored node at `rf`, returning the replacement node
/// for that position; new nodes for rewritten children go to the arena.
#[verifier::loop_isolation(false)]
#[verifier::rlimit(100)]
#[verifier::spinoff_prover]
pub fn insert_at(db: &mut TrieDB, rf: NodeRef, path: NibbleSlice, value: ValueRLP) -> (res: Result<
    Node,
    StoreError,
>)
    requires
        old(db).wf(),
        path.wf(),
        rf.spec_valid(),
        rf.index < old(db).nodes@.len(),
        spec_ok_at(old(db).nodes@, rf, path.spec_offset()),
        old(db).nodes@.len() + rf.index + 6 <= usize::MAX,
    ensures
        final(db).wf(),
        final(db).nodes@.len() <= old(db).nodes@.len() + rf.index + 4,
        res matches Ok(node) && insert_result_post(
            old(db).nodes@,
            final(db).nodes@,
            path,
            value@,
            node,
        ) && insert_frame(old(db).nodes@, final(db).nodes@, rf, path, value@, node),
    decreases rf.index,
{
    let ghost key = path.nibbles();
    let ghost o = path.spec_offset();
    let node = match db.get_node(rf) {
        Ok(n) => n,
        Err(e) => {
            proof {
                assert(false);
            }
            return Err(e);
        },
    };
    proof {
        assert(node_refs_bounded(db.nodes@[rf.index as int], rf.index as int) && node_wf(
            db.nodes@[rf.index as int],
        ) && node_dirty(db.nodes@[rf.index as int]));
        lemma_get_node_eqv(
            db.nodes@,
            db.nodes@[rf.index as int],
            node,
            key,
            o,
            rf.index as int,
        );
    }
    let ghost node0 = node;
    let ghost nodes_orig = db.nodes@;
    match node {
        Node::Leaf(leaf) => {
            let ghost leaf0 = leaf;
            let r = leaf.insert(db, path, value);
            proof {
                if r is Ok {
                    let out = r->Ok_0;
                    assert forall|k2: Seq<u8>|
                        o <= k2.len() implies #[trigger] spec_get_node(
                        db.nodes@,
                        out,
                        k2,
                        o,
                        db.nodes@.len() as int,
                    ) == (if k2.skip(o) == path.rest() {
                        Some(value@)
                    } else {
                        spec_get_at(nodes_orig, rf, k2, o)
                    }) by {
                        lemma_get_node_eqv(
                            nodes_orig,
                            nodes_orig[rf.index as int],
                            Node::Leaf(leaf0),
                            k2,
                            o,
                            rf.index as int,
                        );
                        assert(node0 == Node::Leaf(leaf0));
                    }
                }
            }
            r
        },
        Node::Extension(ext) => {
            let plen = ext.prefix.len();
            let cnt = path.count_prefix_vec(&ext.prefix);
            proof {
                crate::nibble::lemma_common_prefix_props(path.rest(), ext.prefix.nibbles@);
            }
            if cnt == plen {
                // The whole shared run matches: descend into the child.
                let mut p2 = path.duplicate();
                p2.offset_add(plen);
                proof {
                    assert(ext.child.index < rf.index);
                    assert(spec_ok_at(db.nodes@, ext.child, o + plen));
                }
                let new_child = match insert_at(db, ext.child, p2, value) {
                    Ok(n) => n,
                    Err(e) => {
                        proof {
                            assert(false);
                        }
                        return Err(e);
                    },
                };
                let ghost nc = new_child;
                let ghost nodes1 = db.nodes@;
                let child_ref = match db.insert_node(new_child) {
                    Ok(c) => c,
                    Err(e) => {
                        proof {
                            assert(false);
                        }
                        return Err(e);
                    },
                };
                let r = ExtensionNode::new(ext.prefix, child_ref);
                proof {
                    let nodes2 = db.nodes@;
                    assert(nodes2.take(nodes1.len() as int) =~= nodes1);
                    lemma_get_node_extend(nodes1, nodes2, nc, key, o + plen, nodes1.len() as int);
                    assert(nodes2[child_ref.index as int] == nc);
                    assert(key.subrange(o, o + plen) =~= ext.prefix.nibbles@);
                    assert(spec_get_at(nodes2, child_ref, key, o + plen) == Some(value@));
                    assert(spec_get_node(
                        nodes2,
                        Node::Extension(r),
                        key,
                        o,
                        nodes2.len() as int,
                    ) == Some(value@));
                    assert(spec_ok_at(nodes2, child_ref, o + plen));
                    assert(spec_ok_node(nodes2, Node::Extension(r), o, nodes2.len() as int));
                    assert(nodes2.take(old(db).nodes@.len() as int) =~= old(db).nodes@);
                    assert(key.subrange(o, o + plen) =~= r.prefix.nibbles@);
                    assert forall|k2: Seq<u8>|
                        o <= k2.len() implies #[trigger] spec_get_node(
                        nodes2,
                        Node::Extension(r),
                        k2,
                        o,
                        nodes2.len() as int,
                    ) == (if k2.skip(o) == path.rest() {
                        Some(value@)
                    } else {
                        spec_get_at(nodes_orig, rf, k2, o)
                    }) by {
                        assert(nodes_orig[rf.index as int] is Extension);
                        let stored = nodes_orig[rf.index as int];
                        assert(stored->Extension_0.prefix.nibbles@ == ext.prefix.nibbles@);
                        assert(stored->Extension_0.child == ext.child);
                        if o + plen <= k2.len() {
                            lemma_skip_split(k2, key, o, plen as int);
                            if k2.subrange(o, o + plen) == ext.prefix.nibbles@ {
                                assert(spec_get_at(nodes2, child_ref, k2, o + plen)
                                    == spec_get_node(
                                    nodes1,
                                    nc,
                                    k2,
                                    o + plen,
                                    nodes1.len() as int,
                                )) by {
                                    lemma_get_node_extend(
                                        nodes1,
                                        nodes2,
                                        nc,
                                        k2,
                                        o + plen,
                                        nodes1.len() as int,
                                    );
                                    assert(nodes2[child_ref.index as int] == nc);
                                }
                                assert(p2.rest() == key.skip(o + plen));
                            } else {
                                if k2.skip(o) == key.skip(o) {
                                    assert(k2.subrange(o, o + plen) =~= key.subrange(
                                        o,
                                        o + plen,
                                    ));
                                    assert(false);
                                }
                            }
                        } else {
                            if k2.skip(o) == key.skip(o) {
                                assert(k2.skip(o).len() == key.skip(o).len());
                                assert(false);
                            }
                        }
                    }
                }
                Ok(Node::Extension(r))
            } else {
                // The runs diverge inside the shared prefix: split the
                // extension around a fresh branch.
                let mut path_branch = path.duplicate();
                path_branch.offset_add(cnt);
                let absolute = path_branch.offset();
                let ghost nodes0 = db.nodes@;
                let old_side_ref = if cnt + 1 == plen {
                    ext.child
                } else {
                    let sub = ext.prefix.suffix(cnt + 1);
                    let e2 = ExtensionNode::new(sub, ext.child);
                    let ghost e2g = e2;
                    let rref = match db.insert_node(Node::Extension(e2)) {
                        Ok(c) => c,
                        Err(e) => {
                            proof {
                                assert(false);
                            }
                            return Err(e);
                        },
                    };
                    proof {
                        assert(db.nodes@[rref.index as int] == Node::Extension(e2g));
                        assert(db.nodes@[rref.index as int] is Extension);
                        assert(db.nodes@[rref.index as int]->Extension_0.prefix.nibbles@
                            == ext.prefix.nibbles@.skip(cnt + 1));
                        assert(db.nodes@[rref.index as int]->Extension_0.child == ext.child);
                    }
                    rref
                };
                let ghost nodes_a = db.nodes@;
                let ghost p_e = ext.prefix.nibbles@;
                proof {
                    assert(nodes_a.take(nodes0.len() as int) =~= nodes0);
                    lemma_ok_at_extend(nodes0, nodes_a, ext.child, o + plen);
                    assert(spec_ok_at(nodes_a, old_side_ref, o + cnt + 1));
                    assert(nodes0 == nodes_orig);
                    assert(spec_db_wf(nodes_orig));
                    assert(spec_db_wf(nodes_a));
                    assert(ext.child.spec_valid() && ext.child.index < nodes_orig.len());
                    assert(node_refs_bounded(
                        nodes_orig[ext.child.index as int],
                        ext.child.index as int,
                    ));
                    assert(node_wf(nodes_orig[ext.child.index as int]));
                    assert(node_refs_bounded(
                        nodes_a[old_side_ref.index as int],
                        old_side_ref.index as int,
                    ));
                    assert(node_wf(nodes_a[old_side_ref.index as int]));
                    assert forall|k2: Seq<u8>|
                        o + cnt + 1 <= k2.len() implies #[trigger] spec_get_at(
                        nodes_a,
                        old_side_ref,
                        k2,
                        o + cnt + 1,
                    ) == (if o + plen <= k2.len() && k2.subrange(o + cnt + 1, o + plen) == p_e.skip(
                        cnt + 1,
                    ) {
                        spec_get_at(nodes_orig, ext.child, k2, o + plen)
                    } else {
                        None
                    }) by {
                        assert(ext.child.index < nodes_orig.len());
                        assert(ext.child.spec_valid());
                        assert(old_side_ref.spec_valid() && old_side_ref.index < nodes_a.len());

                        lemma_get_node_extend(
                            nodes_orig,
                            nodes_a,
                            nodes_orig[ext.child.index as int],
                            k2,
                            o + plen,
                            ext.child.index as int,
                        );
                        assert(nodes_a[ext.child.index as int] == nodes_orig[ext.child.index as int]);
                        assert(spec_get_at(nodes_a, ext.child, k2, o + plen) == spec_get_at(
                            nodes_orig,
                            ext.child,
                            k2,
                            o + plen,
                        ));
                        if cnt + 1 == plen {
                            assert(old_side_ref == ext.child);
                            assert(p_e.skip(cnt + 1).len() == 0);
                            assert(k2.subrange(o + cnt + 1, o + plen) =~= p_e.skip(cnt + 1));
                            assert(o + plen == o + cnt + 1);
                            assert(spec_get_at(nodes_a, old_side_ref, k2, o + cnt + 1)
                                == spec_get_at(nodes_a, ext.child, k2, o + plen));
                        } else {
                            let sub_node = nodes_a[old_side_ref.index as int];
                            assert(sub_node is Extension);
                            assert(sub_node->Extension_0.prefix.nibbles@ == p_e.skip(cnt + 1));
                            assert(sub_node->Extension_0.child == ext.child);
                            assert(p_e.skip(cnt + 1).len() == plen - cnt - 1);
                            assert(spec_get_at(nodes_a, old_side_ref, k2, o + cnt + 1)
                                == spec_get_node(
                                nodes_a,
                                sub_node,
                                k2,
                                o + cnt + 1,
                                old_side_ref.index as int,
                            ));
                            if o + plen <= k2.len() && k2.subrange(o + cnt + 1, o + plen)
                                == p_e.skip(cnt + 1) {
                                assert(spec_get_node(
                                    nodes_a,
                                    sub_node,
                                    k2,
                                    o + cnt + 1,
                                    old_side_ref.index as int,
                                ) == spec_get_at(nodes_a, ext.child, k2, o + plen));
                            } else {
                                assert(spec_get_node(
                                    nodes_a,
                                    sub_node,
                                    k2,
                                    o + cnt + 1,
                                    old_side_ref.index as int,
                                ) is None);
                            }
                        }
                    }
                }
                let nib_old = ext.prefix.nibbles[cnt];
                proof {
                    assert(nib_old < 16);
                }
                let branch_node = if absolute == 2 * path.data_len() {
                    // The new key ends exactly at the fork: the branch
                    // carries the new value.
                    let mut choices = empty_choices();
                    choices[nib_old as usize] = old_side_ref;
                    let bn = BranchNode::new_with_value(choices, path.data(), value);
                    proof {
                        assert(o + cnt == key.len());
                        assert(spec_get_node(
                            db.nodes@,
                            Node::Branch(bn),
                            key,
                            o + cnt,
                            db.nodes@.len() as int,
                        ) == Some(value@));
                        assert(spec_ok_node(
                            db.nodes@,
                            Node::Branch(bn),
                            o + cnt,
                            db.nodes@.len() as int,
                        ));
                        assert(db.nodes@ == nodes_a);
                        assert forall|k2: Seq<u8>|
                            o + cnt <= k2.len() implies #[trigger] spec_get_node(
                            nodes_a,
                            Node::Branch(bn),
                            k2,
                            o + cnt,
                            nodes_a.len() as int,
                        ) == (if k2.skip(o + cnt) == key.skip(o + cnt) {
                            Some(value@)
                        } else if k2.len() > o + cnt && k2[o + cnt] == nib_old && o + plen
                            <= k2.len() && k2.subrange(o + cnt + 1, o + plen) == p_e.skip(
                            cnt + 1,
                        ) {
                            spec_get_at(nodes_orig, ext.child, k2, o + plen)
                        } else {
                            None
                        }) by {
                            let lhs = spec_get_node(
                                nodes_a,
                                Node::Branch(bn),
                                k2,
                                o + cnt,
                                nodes_a.len() as int,
                            );
                            if k2.len() == o + cnt {
                                assert(k2.skip(o + cnt) =~= key.skip(o + cnt));
                                assert(bn.value is Some);
                                assert(lhs == Some(bn.value->Some_0@));
                                assert(bn.value->Some_0@ == value@);
                            } else {
                                let nib2 = k2[o + cnt];
                                assert(k2.skip(o + cnt)[0] == nib2);
                                assert(key.skip(o + cnt).len() == 0);
                                assert(k2.skip(o + cnt) != key.skip(o + cnt));
                                if nib2 == nib_old {
                                    assert(bn.choices@[nib2 as int] == old_side_ref);
                                    assert(lhs == spec_get_at(
                                        nodes_a,
                                        old_side_ref,
                                        k2,
                                        o + cnt + 1,
                                    ));
                                    assert(spec_get_at(nodes_a, old_side_ref, k2, o + cnt + 1)
                                        == (if o + plen <= k2.len() && k2.subrange(
                                        o + cnt + 1,
                                        o + plen,
                                    ) == p_e.skip(cnt + 1) {
                                        spec_get_at(nodes_orig, ext.child, k2, o + plen)
                                    } else {
                                        None
                                    }));
                                } else {
                                    assert(!bn.choices@[nib2 as int].spec_valid() || !(0 <= nib2
                                        < 16));
                                    assert(lhs is None);
                                }
                            }
                        }
                    }
                    bn
                } else {
                    // A fresh leaf takes the new key's side of the fork.
                    let new_leaf = LeafNode::new(path.data(), value);
                    let ghost nl = new_leaf;
                    let leaf_ref = match db.insert_node(Node::Leaf(new_leaf)) {
                        Ok(c) => c,
                        Err(e) => {
                            proof {
                                assert(false);
                            }
                            return Err(e);
                        },
                    };
                    let mut choices = empty_choices();
                    choices[nib_old as usize] = old_side_ref;
                    let nib_new = match path_branch.next() {
                        Some(x) => x,
                        None => {
                            proof {
                                assert(false);
                            }
                            return Err(StoreError::NotFound);
                        },
                    };
                    proof {
                        lemma_nibbles_bound(path.spec_data());
                        assert(nib_new == key[o + cnt]);
                        assert(nib_new < 16);
                        assert(key[o + cnt] != ext.prefix.nibbles@[cnt as int]);
                        assert(nib_new != nib_old);
                    }
                    choices[nib_new as usize] = leaf_ref;
                    let bn = BranchNode::new(choices);
                    proof {
                        let nodes_b = db.nodes@;
                        assert(nodes_b[leaf_ref.index as int] == Node::Leaf(nl));
                        assert(key.skip(o + cnt + 1) =~= nibbles_of(nl.path@).skip(o + cnt + 1));
                        assert(spec_get_at(nodes_b, leaf_ref, key, o + cnt + 1) == Some(value@));
                        assert(spec_get_node(
                            nodes_b,
                            Node::Branch(bn),
                            key,
                            o + cnt,
                            nodes_b.len() as int,
                        ) == Some(value@));
                        assert(nodes_b.take(nodes_a.len() as int) =~= nodes_a);
                        lemma_ok_at_extend(nodes_a, nodes_b, old_side_ref, o + cnt + 1);
                        assert(spec_ok_at(nodes_b, leaf_ref, o + cnt + 1));
                        assert(spec_ok_node(
                            nodes_b,
                            Node::Branch(bn),
                            o + cnt,
                            nodes_b.len() as int,
                        ));
                        assert(db.nodes@ == nodes_b);
                        assert(o + cnt < key.len());
                        assert forall|k2: Seq<u8>|
                            o + cnt <= k2.len() implies #[trigger] spec_get_node(
                            nodes_b,
                            Node::Branch(bn),
                            k2,
                            o + cnt,
                            nodes_b.len() as int,
                        ) == (if k2.skip(o + cnt) == key.skip(o + cnt) {
                            Some(value@)
                        } else if k2.len() > o + cnt && k2[o + cnt] == nib_old && o + plen
                            <= k2.len() && k2.subrange(o + cnt + 1, o + plen) == p_e.skip(
                            cnt + 1,
                        ) {
                            spec_get_at(nodes_orig, ext.child, k2, o + plen)
                        } else {
                            None
                        }) by {
                            if k2.len() == o + cnt {
                                assert(k2.skip(o + cnt).len() == 0);
                                assert(key.skip(o + cnt).len() > 0);
                            } else {
                                let nib2 = k2[o + cnt];
                                assert(k2.skip(o + cnt)[0] == nib2);
                                lemma_skip_shift(k2, key, o + cnt);
                                if nib2 == nib_new {
                                    assert(bn.choices@[nib2 as int] == leaf_ref);
                                    assert(spec_get_at(nodes_b, leaf_ref, k2, o + cnt + 1)
                                        == spec_get_node(
                                        nodes_b,
                                        Node::Leaf(nl),
                                        k2,
                                        o + cnt + 1,
                                        leaf_ref.index as int,
                                    ));
                                    assert(nibbles_of(nl.path@) == key);
                                } else if nib2 == nib_old {
                                    assert(bn.choices@[nib2 as int] == old_side_ref);
                                    lemma_get_node_extend(
                                        nodes_a,
                                        nodes_b,
                                        nodes_a[old_side_ref.index as int],
                                        k2,
                                        o + cnt + 1,
                                        old_side_ref.index as int,
                                    );
                                    assert(nodes_b[old_side_ref.index as int]
                                        == nodes_a[old_side_ref.index as int]);
                                    assert(spec_get_at(nodes_b, old_side_ref, k2, o + cnt + 1)
                                        == spec_get_at(nodes_a, old_side_ref, k2, o + cnt + 1));
                                    assert(nib_old != key[o + cnt]);
                                } else {
                                    assert(!bn.choices@[nib2 as int].spec_valid() || !(0 <= nib2
                                        < 16));
                                }
                            }
                        }
                    }
                    bn
                };
                let ghost nodes_mid = db.nodes@;
                let ghost bnd_mid2 = nodes_mid.len() as int;
                proof {
                    assert(spec_get_node(
                        nodes_mid,
                        Node::Branch(branch_node),
                        key,
                        o + cnt,
                        nodes_mid.len() as int,
                    ) == Some(value@));
                    assert(spec_ok_node(
                        nodes_mid,
                        Node::Branch(branch_node),
                        o + cnt,
                        nodes_mid.len() as int,
                    ));
                    assert(node0 == Node::Extension(ext));
                    assert(nodes_orig[rf.index as int] is Extension);
                    assert(nodes_orig[rf.index as int]->Extension_0.prefix.nibbles@ == p_e);
                    assert(nodes_orig[rf.index as int]->Extension_0.child == ext.child);
                    assert(forall|j: int| 0 <= j < cnt ==> key.skip(o)[j] == p_e[j]);
                    assert forall|k2: Seq<u8>|
                        o + cnt <= k2.len() implies #[trigger] spec_get_node(
                        nodes_mid,
                        Node::Branch(branch_node),
                        k2,
                        o + cnt,
                        bnd_mid2,
                    ) == (if k2.skip(o + cnt) == key.skip(o + cnt) {
                        Some(value@)
                    } else if k2.len() > o + cnt && k2[o + cnt] == nib_old && o + plen
                        <= k2.len() && k2.subrange(o + cnt + 1, o + plen) == p_e.skip(cnt + 1) {
                        spec_get_at(nodes_orig, ext.child, k2, o + plen)
                    } else {
                        None
                    }) by {
                    }
                }
                let final_node = if cnt != 0 {
                    let prefix_run = path.split_to_vec(cnt);
                    let ghost bn0 = branch_node;
                    let branch_ref = match db.insert_node(Node::Branch(branch_node)) {
                        Ok(c) => c,
                        Err(e) => {
                            proof {
                                assert(false);
                            }
                            return Err(e);
                        },
                    };
                    let ext2 = ExtensionNode::new(prefix_run, branch_ref);
                    proof {
                        let nodes3 = db.nodes@;
                        assert(nodes3.take(nodes_mid.len() as int) =~= nodes_mid);
                        lemma_get_node_extend(
                            nodes_mid,
                            nodes3,
                            Node::Branch(bn0),
                            key,
                            o + cnt,
                            nodes_mid.len() as int,
                        );
                        assert(nodes3[branch_ref.index as int] == Node::Branch(bn0));
                        assert(key.subrange(o, o + cnt) =~= key.skip(o).take(cnt as int));
                        assert(ext2.prefix.nibbles@ == key.subrange(o, o + cnt));
                        assert(spec_get_at(nodes3, branch_ref, key, o + cnt) == Some(value@));
                        assert(spec_get_node(
                            nodes3,
                            Node::Extension(ext2),
                            key,
                            o,
                            nodes3.len() as int,
                        ) == Some(value@));
                        assert(spec_ok_at(nodes3, branch_ref, o + cnt));
                        assert(spec_ok_node(
                            nodes3,
                            Node::Extension(ext2),
                            o,
                            nodes3.len() as int,
                        ));
                        assert(ext2.prefix.nibbles@ =~= key.subrange(o, o + cnt));
                        assert(ext2.prefix.nibbles@ =~= p_e.subrange(0, cnt as int));
                        assert forall|k2: Seq<u8>|
                            o <= k2.len() implies #[trigger] spec_get_node(
                            nodes3,
                            Node::Extension(ext2),
                            k2,
                            o,
                            nodes3.len() as int,
                        ) == (if k2.skip(o) == key.skip(o) {
                            Some(value@)
                        } else {
                            spec_get_at(nodes_orig, rf, k2, o)
                        }) by {
                            lemma_get_node_extend(
                                nodes_mid,
                                nodes3,
                                Node::Branch(bn0),
                                k2,
                                o + cnt,
                                bnd_mid2,
                            );
                            if o + cnt <= k2.len() && k2.subrange(o, o + cnt)
                                == ext2.prefix.nibbles@ {
                                assert(spec_get_at(nodes3, branch_ref, k2, o + cnt)
                                    == spec_get_node(
                                    nodes_mid,
                                    Node::Branch(bn0),
                                    k2,
                                    o + cnt,
                                    bnd_mid2,
                                ));
                                lemma_skip_split(k2, key, o, cnt as int);
                                if o + plen <= k2.len() && k2.subrange(o, o + plen) == p_e {
                                    assert(k2.subrange(o, o + plen)[cnt as int] == k2[o + cnt]);
                                    assert(k2[o + cnt] == p_e[cnt as int]);
                                    assert(k2.subrange(o + cnt + 1, o + plen) =~= p_e.skip(
                                        cnt + 1,
                                    ));
                                } else {
                                    if k2.len() > o + cnt && k2[o + cnt] == nib_old && o + plen
                                        <= k2.len() && k2.subrange(o + cnt + 1, o + plen)
                                        == p_e.skip(cnt + 1) {
                                        assert forall|j: int| 0 <= j < plen implies k2.subrange(
                                            o,
                                            o + plen,
                                        )[j] == p_e[j] by {
                                            assert(k2.subrange(o, o + plen)[j] == k2[o + j]);
                                            if j < cnt {
                                                assert(k2.subrange(o, o + cnt)[j] == k2[o + j]);
                                                assert(p_e.subrange(0, cnt as int)[j] == p_e[j]);
                                            } else if j == cnt {
                                                assert(nib_old == p_e[cnt as int]);
                                            } else {
                                                assert(k2.subrange(o + cnt + 1, o + plen)[j - cnt
                                                    - 1] == k2[o + j]);
                                                assert(p_e.skip(cnt + 1)[j - cnt - 1] == p_e[j]);
                                            }
                                        }
                                        assert(k2.subrange(o, o + plen) =~= p_e);
                                        assert(false);
                                    }
                                }
                            } else {
                                if k2.skip(o) == key.skip(o) {
                                    assert(k2.skip(o).len() >= cnt);
                                    assert(k2.subrange(o, o + cnt) =~= ext2.prefix.nibbles@);
                                    assert(false);
                                }
                                if o + plen <= k2.len() && k2.subrange(o, o + plen) == p_e {
                                    assert forall|j: int| 0 <= j < cnt implies k2.subrange(
                                        o,
                                        o + cnt,
                                    )[j] == ext2.prefix.nibbles@[j] by {
                                        assert(k2.subrange(o, o + cnt)[j] == k2[o + j]);
                                        assert(k2.subrange(o, o + plen)[j] == k2[o + j]);
                                        assert(p_e.subrange(0, cnt as int)[j] == p_e[j]);
                                    }
                                    assert(k2.subrange(o, o + cnt) =~= ext2.prefix.nibbles@);
                                    assert(false);
                                }
                            }
                        }
                    }
                    Node::Extension(ext2)
                } else {
                    proof {
                        assert(db.nodes@ == nodes_mid);
                        assert forall|k2: Seq<u8>|
                            o <= k2.len() implies #[trigger] spec_get_node(
                            nodes_mid,
                            Node::Branch(branch_node),
                            k2,
                            o,
                            bnd_mid2,
                        ) == (if k2.skip(o) == key.skip(o) {
                            Some(value@)
                        } else {
                            spec_get_at(nodes_orig, rf, k2, o)
                        }) by {
                            if o + plen <= k2.len() && k2.subrange(o, o + plen) == p_e {
                                assert(k2.subrange(o, o + plen)[0] == k2[o]);
                                assert(k2[o] == p_e[0]);
                                assert(k2[o] == nib_old);
                                assert(k2.subrange(o + 1, o + plen) =~= p_e.skip(1));
                            } else {
                                if k2.len() > o && k2[o] == nib_old && o + plen <= k2.len()
                                    && k2.subrange(o + 1, o + plen) == p_e.skip(1) {
                                    assert forall|j: int| 0 <= j < plen implies k2.subrange(
                                        o,
                                        o + plen,
                                    )[j] == p_e[j] by {
                                        assert(k2.subrange(o, o + plen)[j] == k2[o + j]);
                                        if j == 0 {
                                            assert(nib_old == p_e[0]);
                                        } else {
                                            assert(k2.subrange(o + 1, o + plen)[j - 1] == k2[o
                                                + j]);
                                            assert(p_e.skip(1)[j - 1] == p_e[j]);
                                        }
                                    }
                                    assert(k2.subrange(o, o + plen) =~= p_e);
                                    assert(false);
                                }
                            }
                        }
                    }
                    Node::Branch(branch_node)
                };
                proof {
                    assert(db.nodes@.take(old(db).nodes@.len() as int) =~= old(db).nodes@);
                    assert(insert_result_post(
                        old(db).nodes@,
                        db.nodes@,
                        path,
                        value@,
                        final_node,
                    ));
                    assert(insert_frame(
                        old(db).nodes@,
                        db.nodes@,
                        rf,
                        path,
                        value@,
                        final_node,
                    ));
                }
                Ok(final_node)
            }
        },
        Node::Branch(branch) => {
            let ghost branch0 = branch;
            let mut branch = branch;
            if path.len() == 0 {
                // The key ends here: the branch takes over the value.
                branch.hash.mark_as_dirty();
                branch.path = path.data();
                branch.value = Some(value);
                proof {
                    assert(o >= key.len());
                    assert(spec_get_node(
                        db.nodes@,
                        Node::Branch(branch),
                        key,
                        o,
                        db.nodes@.len() as int,
                    ) == Some(value@));
                    assert forall|i: int|
                        0 <= i < branch.choices@.len() && (#[trigger] branch.choices@[
                            i
                        ]).spec_valid() implies spec_ok_at(db.nodes@, branch.choices@[i], o + 1) by {
                        assert(spec_ok_at(db.nodes@, branch.choices@[i], o + 1));
                    }
                    assert(o == 2 * path.spec_data().len());
                    assert(spec_ok_node(
                        db.nodes@,
                        Node::Branch(branch),
                        o,
                        db.nodes@.len() as int,
                    ));
                    assert(db.nodes@.take(old(db).nodes@.len() as int) =~= old(db).nodes@);
                    assert(node0 == Node::Branch(branch0));
                    assert forall|k2: Seq<u8>|
                        o <= k2.len() implies #[trigger] spec_get_node(
                        db.nodes@,
                        Node::Branch(branch),
                        k2,
                        o,
                        db.nodes@.len() as int,
                    ) == (if k2.skip(o) == path.rest() {
                        Some(value@)
                    } else {
                        spec_get_at(nodes_orig, rf, k2, o)
                    }) by {
                        lemma_get_node_eqv(
                            nodes_orig,
                            nodes_orig[rf.index as int],
                            Node::Branch(branch0),
                            k2,
                            o,
                            rf.index as int,
                        );
                        if k2.len() == o {
                            assert(k2.skip(o) =~= path.rest());
                        } else {
                            assert(k2.skip(o).len() > 0);
                            assert(path.rest().len() == 0);
                            assert(branch.choices@ == branch0.choices@);
                        }
                    }
                }
                Ok(Node::Branch(branch))
            } else {
                // Dispatch on the next nibble.
                let mut p2 = path.duplicate();
                let nib = match p2.next() {
                    Some(x) => x,
                    None => {
                        proof {
                            assert(false);
                        }
                        return Err(StoreError::NotFound);
                    },
                };
                proof {
                    lemma_nibbles_bound(path.spec_data());
                    assert(nib == key[o]);
                    assert(nib < 16);
                }
                let choice = branch.choices[nib as usize];
                let ghost nodes0 = db.nodes@;
                let child_node = if choice.is_valid() {
                    proof {
                        assert(choice.index < rf.index);
                        assert(spec_ok_at(db.nodes@, choice, o + 1));
                    }
                    match insert_at(db, choice, p2, value) {
                        Ok(n) => n,
                        Err(e) => {
                            proof {
                                assert(false);
                            }
                            return Err(e);
                        },
                    }
                } else {
                    let nl = LeafNode::new(path.data(), value);
                    proof {
                        assert(key.skip(o + 1) =~= nibbles_of(nl.path@).skip(o + 1));
                        assert(spec_get_node(
                            db.nodes@,
                            Node::Leaf(nl),
                            key,
                            o + 1,
                            db.nodes@.len() as int,
                        ) == Some(value@));
                    }
                    Node::Leaf(nl)
                };
                let ghost cn = child_node;
                let ghost nodes1 = db.nodes@;
                proof {
                    assert(spec_get_node(nodes1, cn, key, o + 1, nodes1.len() as int) == Some(
                        value@,
                    ));
                    assert(spec_ok_node(nodes1, cn, o + 1, nodes1.len() as int));
                }
                let child_ref = match db.insert_node(child_node) {
                    Ok(c) => c,
                    Err(e) => {
                        proof {
                            assert(false);
                        }
                        return Err(e);
                    },
                };
                branch.hash.mark_as_dirty();
                branch.choices[nib as usize] = child_ref;
                proof {
                    let nodes2 = db.nodes@;
                    assert(nodes2.take(nodes1.len() as int) =~= nodes1);
                    lemma_get_node_extend(nodes1, nodes2, cn, key, o + 1, nodes1.len() as int);
                    assert(nodes2[child_ref.index as int] == cn);
                    assert(spec_get_at(nodes2, child_ref, key, o + 1) == Some(value@));
                    assert(branch.choices@[nib as int] == child_ref);
                    assert(spec_get_node(
                        nodes2,
                        Node::Branch(branch),
                        key,
                        o,
                        nodes2.len() as int,
                    ) == Some(value@));
                    lemma_get_node_extend(nodes1, nodes2, cn, Seq::empty(), o + 1, nodes1.len() as int);
                    assert(spec_ok_at(nodes2, child_ref, o + 1));
                    assert forall|i: int|
                        0 <= i < branch.choices@.len() && (#[trigger] branch.choices@[
                            i
                        ]).spec_valid() implies spec_ok_at(nodes2, branch.choices@[i], o + 1) by {
                        if i != nib as int {
                            assert(spec_ok_at(nodes0, branch.choices@[i], o + 1));
                            assert(nodes1.take(nodes0.len() as int) =~= nodes0);
                            lemma_ok_at_extend(nodes0, nodes1, branch.choices@[i], o + 1);
                            lemma_ok_at_extend(nodes1, nodes2, branch.choices@[i], o + 1);
                        }
                    }
                    assert(spec_ok_node(
                        nodes2,
                        Node::Branch(branch),
                        o,
                        nodes2.len() as int,
                    ));
                    assert(nodes2.take(old(db).nodes@.len() as int) =~= old(db).nodes@);
                    assert(node0 == Node::Branch(branch0));
                    assert(key.len() > o);
                    assert forall|k2: Seq<u8>|
                        o <= k2.len() implies #[trigger] spec_get_node(
                        nodes2,
                        Node::Branch(branch),
                        k2,
                        o,
                        nodes2.len() as int,
                    ) == (if k2.skip(o) == path.rest() {
                        Some(value@)
                    } else {
                        spec_get_at(nodes_orig, rf, k2, o)
                    }) by {
                        lemma_get_node_eqv(
                            nodes_orig,
                            nodes_orig[rf.index as int],
                            Node::Branch(branch0),
                            k2,
                            o,
                            rf.index as int,
                        );
                        if k2.len() == o {
                            assert(k2.skip(o).len() == 0);
                            assert(path.rest().len() > 0);
                        } else {
                            lemma_skip_shift(k2, key, o);
                            let nib2 = k2[o];
                            assert(k2.skip(o)[0] == nib2);
                            assert(key.skip(o)[0] == key[o]);
                            if nib2 == nib {
                                lemma_get_node_extend(
                                    nodes1,
                                    nodes2,
                                    cn,
                                    k2,
                                    o + 1,
                                    nodes1.len() as int,
                                );
                                assert(nodes2[child_ref.index as int] == cn);
                                assert(spec_get_at(nodes2, child_ref, k2, o + 1)
                                    == spec_get_node(nodes1, cn, k2, o + 1, nodes1.len() as int));
                                if choice.spec_valid() {
                                    assert(spec_get_node(
                                        nodes1,
                                        cn,
                                        k2,
                                        o + 1,
                                        nodes1.len() as int,
                                    ) == (if k2.skip(o + 1) == key.skip(o + 1) {
                                        Some(value@)
                                    } else {
                                        spec_get_at(nodes_orig, choice, k2, o + 1)
                                    }));
                                } else {
                                    assert(nibbles_of(cn->Leaf_0.path@) == key);
                                }
                            } else {
                                if k2.skip(o) == key.skip(o) {
                                    assert(false);
                                }
                                if 0 <= nib2 < 16 && branch.choices@[nib2 as int].spec_valid() {
                                    let c2 = branch.choices@[nib2 as int];
                                    assert(c2 == branch0.choices@[nib2 as int]);
                                    assert(node_refs_bounded(
                                        Node::Branch(branch0),
                                        rf.index as int,
                                    ));
                                    assert(c2.index < rf.index);
                                    assert(nodes2.take(nodes_orig.len() as int) =~= nodes_orig);
                                    lemma_get_node_extend(
                                        nodes_orig,
                                        nodes2,
                                        nodes_orig[c2.index as int],
                                        k2,
                                        o + 1,
                                        c2.index as int,
                                    );
                                    assert(nodes2[c2.index as int] == nodes_orig[c2.index as int]);
                                }
                            }
                        }
                    }
                }
                Ok(Node::Branch(branch))
            }
        },
    }
}

/// The trie: one root reference into a node arena; every mutation
/// produces a new root while old roots stay readable.
#[derive(Debug)]
pub struct Trie {
    pub db: TrieDB,
    pub root: Option<NodeRef>,
}

impl Trie {
    /// The arena is consistent and the root, if any, resolves to a
    /// shape-consistent subtree.
    pub open spec fn wf(self) -> bool {
        &&& self.db.wf()
        &&& match self.root {
            Some(r) => r.spec_valid() && r.index < self.db.nodes@.len() && spec_ok_at(
                self.db.nodes@,
                r,
                0,
            ),
            None => true,
        }
    }

    /// What the trie maps a byte key to.
    pub open spec fn spec_mapping(self, key: Seq<u8>) -> Option<Seq<u8>> {
        match self.root {
            Some(r) => spec_get_at(self.db.nodes@, r, nibbles_of(key), 0),
            None => None,
        }
    }

    /// The canonical root digest: the digest of the root node's
    /// encoding, or of the empty-string item for an empty trie.
    pub open spec fn spec_root_hash(self) -> Seq<u8> {
        match self.root {
            Some(r) => keccak_of(
                spec_node_encoding(self.db.nodes@, self.db.nodes@[r.index as int], 0, r.index as int),
            ),
            None => keccak_of(seq![0x80u8]),
        }
    }

    /// A fresh, empty, in-memory trie.
    pub fn new_temp() -> (r: Trie)
        ensures
            r.wf(),
            r.root is None,
            r.db.nodes@.len() == 0,
            forall|key: Seq<u8>| r.spec_mapping(key) is None,
    {
        Trie { db: TrieDB::new(), root: None }
    }

    /// Retrieve the value stored at `path`, if any.
    pub fn get(&self, path: &PathRLP) -> (r: Result<Option<ValueRLP>, StoreError>)
        requires
            self.wf(),
            2 * path@.len() <= usize::MAX,
        ensures
            r matches Ok(v) && opt_bytes_matches(v, self.spec_mapping(path@)),
    {
        match &self.root {
            None => Ok(None),
            Some(root) => get_at(&self.db, *root, NibbleSlice::new(path.as_slice())),
        }
    }

    /// Insert a key/value pair; the mapping of `path` afterwards is
    /// exactly the inserted value.
    pub fn insert(&mut self, path: PathRLP, value: ValueRLP) -> (r: Result<(), StoreError>)
        requires
            old(self).wf(),
            2 * path@.len() <= usize::MAX,
            2 * old(self).db.nodes@.len() + 8 <= usize::MAX,
        ensures
            final(self).wf(),
            r is Ok,
            final(self).spec_mapping(path@) == Some(value@),
            forall|k: Seq<u8>|
                #[trigger] final(self).spec_mapping(k) == (if k == path@ {
                    Some(value@)
                } else {
                    old(self).spec_mapping(k)
                }),
            old(self).root is None ==> final(self).db.nodes@.len() == old(
                self,
            ).db.nodes@.len() + 1 && (final(self).root matches Some(rf)
                && final(self).db.nodes@[rf.index as int] matches Node::Leaf(l) && l.path@
                == path@ && l.value@ == value@),
    {
        let ghost key = nibbles_of(path@);
        match self.root {
            None => {
                let leaf = LeafNode::new(clone_path(&path), value);
                let ghost nl = leaf;
                let rf = match self.db.insert_node(Node::Leaf(leaf)) {
                    Ok(c) => c,
                    Err(e) => {
                        proof {
                            assert(false);
                        }
                        return Err(e);
                    },
                };
                self.root = Some(rf);
                proof {
                    assert(self.db.nodes@[rf.index as int] == Node::Leaf(nl));
                    assert(key.skip(0) =~= nibbles_of(nl.path@).skip(0));
                    assert(spec_get_at(self.db.nodes@, rf, key, 0) == Some(value@));
                    assert(spec_ok_at(self.db.nodes@, rf, 0));
                    assert forall|k: Seq<u8>|
                        #[trigger] self.spec_mapping(k) == (if k == path@ {
                            Some(value@)
                        } else {
                            old(self).spec_mapping(k)
                        }) by {
                        if k == path@ {
                            assert(nibbles_of(k).skip(0) =~= nibbles_of(nl.path@).skip(0));
                        } else {
                            if nibbles_of(k).skip(0) == nibbles_of(nl.path@).skip(0) {
                                assert(nibbles_of(k).skip(0) =~= nibbles_of(k));
                                assert(nibbles_of(nl.path@).skip(0) =~= nibbles_of(nl.path@));
                                crate::nibble::lemma_nibbles_injective(k, nl.path@);
                                assert(false);
                            }
                        }
                    }
                }
                Ok(())
            },
            Some(root) => {
                let slice = NibbleSlice::new(path.as_slice());
                let node = match insert_at(&mut self.db, root, slice, value) {
                    Ok(n) => n,
                    Err(e) => {
                        proof {
                            assert(false);
                        }
                        return Err(e);
                    },
                };
                let ghost nn = node;
                let ghost nodes1 = self.db.nodes@;
                let rf2 = match self.db.insert_node(node) {
                    Ok(c) => c,
                    Err(e) => {
                        proof {
                            assert(false);
                        }
                        return Err(e);
                    },
                };
                self.root = Some(rf2);
                proof {
                    let nodes2 = self.db.nodes@;
                    assert(nodes2.take(nodes1.len() as int) =~= nodes1);
                    lemma_get_node_extend(nodes1, nodes2, nn, key, 0, nodes1.len() as int);
                    lemma_get_node_extend(nodes1, nodes2, nn, Seq::empty(), 0, nodes1.len() as int);
                    assert(nodes2[rf2.index as int] == nn);
                    assert(spec_get_at(nodes2, rf2, key, 0) == Some(value@));
                    assert(spec_ok_at(nodes2, rf2, 0));
                    assert forall|k: Seq<u8>|
                        #[trigger] self.spec_mapping(k) == (if k == path@ {
                            Some(value@)
                        } else {
                            old(self).spec_mapping(k)
                        }) by {
                        let kn = nibbles_of(k);
                        lemma_get_node_extend(nodes1, nodes2, nn, kn, 0, nodes1.len() as int);
                        assert(spec_get_at(nodes2, rf2, kn, 0) == spec_get_node(
                            nodes1,
                            nn,
                            kn,
                            0,
                            nodes1.len() as int,
                        ));
                        assert(slice.rest() == key);
                        if k == path@ {
                            assert(kn.skip(0) =~= key.skip(0));
                        } else {
                            if kn.skip(0) == key.skip(0) {
                                assert(kn.skip(0) =~= kn);
                                assert(key.skip(0) =~= key);
                                crate::nibble::lemma_nibbles_injective(k, path@);
                                assert(false);
                            }
                        }
                    }
                }
                Ok(())
            },
        }
    }

    /// Remove the value stored at `path`: the returned value is exactly
    /// what a lookup before the call would have found, and the trie is
    /// re-compacted to canonical shape.
    pub fn remove(&mut self, path: PathRLP) -> (r: Result<Option<ValueRLP>, StoreError>)
        requires
            old(self).wf(),
            2 * path@.len() <= usize::MAX,
            2 * old(self).db.nodes@.len() + 8 <= usize::MAX,
        ensures
            final(self).wf(),
            r matches Ok(v) && opt_bytes_matches(v, old(self).spec_mapping(path@)),
    {
        match self.root {
            None => Ok(None),
            Some(root) => {
                let slice = NibbleSlice::new(path.as_slice());
                let pair = match remove_at(&mut self.db, root, slice) {
                    Ok(p) => p,
                    Err(e) => {
                        proof {
                            assert(false);
                        }
                        return Err(e);
                    },
                };
                let (node_opt, val) = pair;
                match node_opt {
                    Some(n) => {
                        let ghost ng = n;
                        let ghost nodes1 = self.db.nodes@;
                        let rf = match self.db.insert_node(n) {
                            Ok(c) => c,
                            Err(e) => {
                                proof {
                                    assert(false);
                                }
                                return Err(e);
                            },
                        };
                        self.root = Some(rf);
                        proof {
                            let nodes2 = self.db.nodes@;
                            assert(nodes2.take(nodes1.len() as int) =~= nodes1);
                            lemma_get_node_extend(
                                nodes1,
                                nodes2,
                                ng,
                                Seq::empty(),
                                0,
                                nodes1.len() as int,
                            );
                            assert(nodes2[rf.index as int] == ng);
                            assert(spec_ok_at(nodes2, rf, 0));
                        }
                    },
                    None => {
                        self.root = None;
                    },
                }
                Ok(val)
            },
        }
    }

    /// The canonical digest committing to the whole content.
    pub fn root_hash(&self) -> (r: Result<Vec<u8>, StoreError>)
        requires
            self.wf(),
        ensures
            r matches Ok(h) && h@ == self.spec_root_hash(),
    {
        match &self.root {
            None => {
                let mut empty_item: Vec<u8> = Vec::new();
                empty_item.push(0x80);
                proof {
                    assert(empty_item@ =~= seq![0x80u8]);
                }
                Ok(keccak256(&empty_item))
            },
            Some(root) => {
                let h = match compute_hash_at(&self.db, *root, 0) {
                    Ok(h) => h,
                    Err(e) => {
                        proof {
                            assert(false);
                        }
                        return Err(e);
                    },
                };
                match h {
                    NodeHashRef::Inline(enc) => Ok(keccak256(&enc)),
                    NodeHashRef::Hashed(v) => Ok(v),
                }
            },
        }
    }
}

/// Copy a key so it can live in more than one node.
pub fn clone_path(p: &PathRLP) -> (r: PathRLP)
    ensures
        r@ == p@,
{
    crate::nibble::clone_bytes(p)
}


/// Shrink a branch that deletion may have left degenerate: one with no
/// children keeps only its value as a leaf (or vanishes), one with a
/// single child and no value collapses into that child, its fork nibble
/// folded into an extension prefix.
#[verifier::loop_isolation(false)]
fn collapse_branch(db: &TrieDB, branch: BranchNode, path_offset: Ghost<int>) -> (res: Result<
    Option<Node>,
    StoreError,
>)
    requires
        db.wf(),
        branch.choices@.len() == 16,
        branch.hash.is_dirty(),
        2 * branch.path@.len() <= usize::MAX,
        0 <= path_offset@ < usize::MAX,
        branch.value is Some ==> path_offset@ <= 2 * branch.path@.len(),
        forall|i: int|
            0 <= i < 16 && (#[trigger] branch.choices@[i]).spec_valid() ==> branch.choices@[
                i
            ].index < db.nodes@.len() && spec_ok_at(db.nodes@, branch.choices@[i], path_offset@ + 1),
    ensures
        res matches Ok(opt) && (opt matches Some(n) ==> node_wf(n) && node_dirty(n)
            && node_refs_bounded(n, db.nodes@.len() as int) && spec_ok_node(
            db.nodes@,
            n,
            path_offset@,
            db.nodes@.len() as int,
        )),
{
    let mut count: usize = 0;
    let mut last: usize = 0;
    let mut i: usize = 0;
    while i < 16
        invariant
            count <= i <= 16,
            count > 0 ==> last < i && branch.choices@[last as int].spec_valid(),
            count == 0 ==> forall|j: int|
                0 <= j < i ==> !(#[trigger] branch.choices@[j]).spec_valid(),
            count <= 1 ==> forall|j: int|
                0 <= j < i && j != last ==> !(#[trigger] branch.choices@[j]).spec_valid(),
        decreases 16 - i,
    {
        if branch.choices[i].is_valid() {
            count = count + 1;
            last = i;
        }
        i = i + 1;
    }
    if count == 0 {
        match branch.value {
            Some(v) => Ok(Some(Node::Leaf(LeafNode::new(branch.path, v)))),
            None => Ok(None),
        }
    } else if count == 1 && matches!(branch.value, None) {
        let child_ref = branch.choices[last];
        let child = match db.get_node(child_ref) {
            Ok(n) => n,
            Err(e) => {
                proof {
                    assert(false);
                }
                return Err(e);
            },
        };
        proof {
            assert(branch.choices@[last as int].spec_valid());
            assert(child_ref == branch.choices@[last as int]);
            assert(spec_ok_at(db.nodes@, child_ref, path_offset@ + 1));
            assert(spec_db_wf(db.nodes@));
            assert(child_ref.spec_valid() && child_ref.index < db.nodes@.len());
            assert(node_refs_bounded(
                db.nodes@[child_ref.index as int],
                child_ref.index as int,
            ));
            assert(node_wf(db.nodes@[child_ref.index as int]));
            assert(node_dirty(db.nodes@[child_ref.index as int]));
            lemma_get_node_eqv(
                db.nodes@,
                db.nodes@[child_ref.index as int],
                child,
                Seq::empty(),
                path_offset@ + 1,
                child_ref.index as int,
            );
        }
        match child {
            Node::Leaf(l) => Ok(Some(Node::Leaf(LeafNode::new(l.path, l.value)))),
            Node::Extension(e) => {
                let merged = NibbleVec::single(last as u8).concat(&e.prefix);
                Ok(Some(Node::Extension(ExtensionNode::new(merged, e.child))))
            },
            Node::Branch(_) => {
                let prefix = NibbleVec::single(last as u8);
                Ok(Some(Node::Extension(ExtensionNode::new(prefix, child_ref))))
            },
        }
    } else {
        Ok(Some(Node::Branch(branch)))
    }
}

/// Remove below the stored node at `rf`: hand back the replacement node
/// (or nothing, if the subtree vanished) and the removed value, which is
/// exactly what a lookup would have returned.
#[verifier::loop_isolation(false)]
#[verifier::rlimit(60)]
pub fn remove_at(db: &mut TrieDB, rf: NodeRef, path: NibbleSlice) -> (res: Result<
    (Option<Node>, Option<ValueRLP>),
    StoreError,
>)
    requires
        old(db).wf(),
        path.wf(),
        rf.spec_valid(),
        rf.index < old(db).nodes@.len(),
        spec_ok_at(old(db).nodes@, rf, path.spec_offset()),
        old(db).nodes@.len() + rf.index + 6 <= usize::MAX,
    ensures
        final(db).wf(),
        final(db).nodes@.len() >= old(db).nodes@.len(),
        final(db).nodes@.len() <= old(db).nodes@.len() + rf.index + 4,
        final(db).nodes@.take(old(db).nodes@.len() as int) == old(db).nodes@,
        res matches Ok(pair) && opt_bytes_matches(
            pair.1,
            spec_get_at(old(db).nodes@, rf, path.nibbles(), path.spec_offset()),
        ) && (pair.0 matches Some(n) ==> node_wf(n) && node_dirty(n) && node_refs_bounded(
            n,
            final(db).nodes@.len() as int,
        ) && spec_ok_node(final(db).nodes@, n, path.spec_offset(), final(db).nodes@.len() as int)),
    decreases rf.index,
{
    let ghost key = path.nibbles();
    let ghost o = path.spec_offset();
    let node = match db.get_node(rf) {
        Ok(n) => n,
        Err(e) => {
            proof {
                assert(false);
            }
            return Err(e);
        },
    };
    proof {
        assert(node_refs_bounded(db.nodes@[rf.index as int], rf.index as int) && node_wf(
            db.nodes@[rf.index as int],
        ) && node_dirty(db.nodes@[rf.index as int]));
        lemma_get_node_eqv(
            db.nodes@,
            db.nodes@[rf.index as int],
            node,
            key,
            o,
            rf.index as int,
        );
    }
    match node {
        Node::Leaf(leaf) => {
            let r = match leaf.remove(path) {
                Ok(pair) => pair,
                Err(e) => {
                    proof {
                        assert(false);
                    }
                    return Err(e);
                },
            };
            proof {
                assert(db.nodes@.take(db.nodes@.len() as int) =~= db.nodes@);
            }
            Ok(r)
        },
        Node::Extension(ext) => {
            let plen = ext.prefix.len();
            let cnt = path.count_prefix_vec(&ext.prefix);
            proof {
                crate::nibble::lemma_common_prefix_props(path.rest(), ext.prefix.nibbles@);
                assert(db.nodes@.take(db.nodes@.len() as int) =~= db.nodes@);
            }
            if cnt < plen {
                // The remaining key does not run along this prefix: the
                // key is absent and nothing changes.
                proof {
                    if o + plen <= key.len() && key.subrange(o, o + plen)
                        == ext.prefix.nibbles@ {
                        assert(key.subrange(o, o + plen)[cnt as int] == key[o + cnt]);
                        assert(key.skip(o)[cnt as int] == key[o + cnt]);
                        assert(false);
                    }
                }
                return Ok((Some(Node::Extension(ext)), None));
            }
            let mut p2 = path.duplicate();
            p2.offset_add(plen);
            proof {
                assert(ext.child.index < rf.index);
                assert(spec_ok_at(db.nodes@, ext.child, o + plen));
                assert(key.subrange(o, o + plen) =~= ext.prefix.nibbles@);
            }
            let pair = match remove_at(db, ext.child, p2) {
                Ok(p) => p,
                Err(e) => {
                    proof {
                        assert(false);
                    }
                    return Err(e);
                },
            };
            let (child_opt, val) = pair;
            match child_opt {
                None => Ok((None, val)),
                Some(new_child) => {
                    match new_child {
                        Node::Leaf(l) => Ok((Some(Node::Leaf(l)), val)),
                        Node::Extension(e2) => {
                            let merged = ext.prefix.concat(&e2.prefix);
                            Ok((Some(Node::Extension(ExtensionNode::new(merged, e2.child))), val))
                        },
                        Node::Branch(b2) => {
                            let ghost b2g = b2;
                            let ghost nodes1 = db.nodes@;
                            let cref = match db.insert_node(Node::Branch(b2)) {
                                Ok(c) => c,
                                Err(e) => {
                                    proof {
                                        assert(false);
                                    }
                                    return Err(e);
                                },
                            };
                            proof {
                                let nodes2 = db.nodes@;
                                assert(nodes2.take(nodes1.len() as int) =~= nodes1);
                                lemma_get_node_extend(
                                    nodes1,
                                    nodes2,
                                    Node::Branch(b2g),
                                    Seq::empty(),
                                    o + plen,
                                    nodes1.len() as int,
                                );
                                assert(nodes2[cref.index as int] == Node::Branch(b2g));
                                assert(spec_ok_at(nodes2, cref, o + plen));
                                assert(nodes1.take(old(db).nodes@.len() as int) == old(
                                    db,
                                ).nodes@);
                                assert(nodes2.take(old(db).nodes@.len() as int) =~= old(
                                    db,
                                ).nodes@);
                            }
                            Ok((Some(Node::Extension(ExtensionNode::new(ext.prefix, cref))), val))
                        },
                    }
                },
            }
        },
        Node::Branch(branch) => {
            let ghost branch0 = branch;
            let mut branch = branch;
            if path.len() == 0 {
                // The key ends here: take the value out and re-compact.
                let old_value = branch.value;
                branch.value = None;
                branch.path = Vec::new();
                branch.hash.mark_as_dirty();
                proof {
                    assert(o >= key.len());
                    assert forall|i: int|
                        0 <= i < 16 && (#[trigger] branch.choices@[i]).spec_valid() implies branch.choices@[
                        i
                    ].index < db.nodes@.len() && spec_ok_at(db.nodes@, branch.choices@[i], o + 1) by {
                        assert(spec_ok_at(db.nodes@, branch.choices@[i], o + 1));
                    }
                    assert(db.nodes@.take(db.nodes@.len() as int) =~= db.nodes@);
                }
                let restructured = match collapse_branch(db, branch, Ghost(o)) {
                    Ok(r) => r,
                    Err(e) => {
                        proof {
                            assert(false);
                        }
                        return Err(e);
                    },
                };
                Ok((restructured, old_value))
            } else {
                let mut p2 = path.duplicate();
                let nib = match p2.next() {
                    Some(x) => x,
                    None => {
                        proof {
                            assert(false);
                        }
                        return Err(StoreError::NotFound);
                    },
                };
                proof {
                    lemma_nibbles_bound(path.spec_data());
                    assert(nib == key[o]);
                    assert(nib < 16);
                    assert(db.nodes@.take(db.nodes@.len() as int) =~= db.nodes@);
                }
                let choice = branch.choices[nib as usize];
                if !choice.is_valid() {
                    return Ok((Some(Node::Branch(branch)), None));
                }
                proof {
                    assert(choice.index < rf.index);
                    assert(spec_ok_at(db.nodes@, choice, o + 1));
                }
                let ghost nodes0 = db.nodes@;
                let pair = match remove_at(db, choice, p2) {
                    Ok(p) => p,
                    Err(e) => {
                        proof {
                            assert(false);
                        }
                        return Err(e);
                    },
                };
                let (child_opt, val) = pair;
                branch.hash.mark_as_dirty();
                let ghost nodes1 = db.nodes@;
                proof {
                    assert(nodes1.take(nodes0.len() as int) =~= nodes0);
                }
                match child_opt {
                    Some(n) => {
                        let ghost ng = n;
                        let cref = match db.insert_node(n) {
                            Ok(c) => c,
                            Err(e) => {
                                proof {
                                    assert(false);
                                }
                                return Err(e);
                            },
                        };
                        branch.choices[nib as usize] = cref;
                        proof {
                            let nodes2 = db.nodes@;
                            assert(nodes2.take(nodes1.len() as int) =~= nodes1);
                            lemma_get_node_extend(
                                nodes1,
                                nodes2,
                                ng,
                                Seq::empty(),
                                o + 1,
                                nodes1.len() as int,
                            );
                            assert(nodes2[cref.index as int] == ng);
                            assert(spec_ok_at(nodes2, cref, o + 1));
                            assert forall|i: int|
                                0 <= i < 16 && (#[trigger] branch.choices@[i]).spec_valid()
                                implies spec_ok_at(nodes2, branch.choices@[i], o + 1) by {
                                if i != nib as int {
                                    assert(spec_ok_at(nodes0, branch.choices@[i], o + 1));
                                    lemma_ok_at_extend(nodes0, nodes1, branch.choices@[i], o + 1);
                                    lemma_ok_at_extend(nodes1, nodes2, branch.choices@[i], o + 1);
                                }
                            }
                            assert(spec_ok_node(
                                nodes2,
                                Node::Branch(branch),
                                o,
                                nodes2.len() as int,
                            ));
                            assert(nodes2.take(old(db).nodes@.len() as int) =~= old(db).nodes@);
                        }
                        Ok((Some(Node::Branch(branch)), val))
                    },
                    None => {
                        branch.choices[nib as usize] = NodeRef::empty();
                        proof {
                            assert forall|i: int|
                                0 <= i < 16 && (#[trigger] branch.choices@[i]).spec_valid()
                                implies branch.choices@[i].index < db.nodes@.len() && spec_ok_at(
                                db.nodes@,
                                branch.choices@[i],
                                o + 1,
                            ) by {
                                assert(spec_ok_at(nodes0, branch.choices@[i], o + 1));
                                lemma_ok_at_extend(nodes0, nodes1, branch.choices@[i], o + 1);
                            }
                        }
                        let restructured = match collapse_branch(db, branch, Ghost(o)) {
                            Ok(r) => r,
                            Err(e) => {
                                proof {
                                    assert(false);
                                }
                                return Err(e);
                            },
                        };
                        Ok((restructured, val))
                    },
                }
            }
        },
    }
}

/// Law: a leaf's digest is a function of its key and value alone, so a
/// trie whose root holds the same pair as another's hashes identically;
/// in particular, rewriting a pair that is already present (an insert of
/// the same key and value twice) leaves the root digest unchanged.
pub proof fn lemma_single_leaf_root_hash(t1: Trie, t2: Trie)
    requires
        t1.wf(),
        t2.wf(),
        t1.root matches Some(r1) && t1.db.nodes@[r1.index as int] matches Node::Leaf(l1)
            && (t2.root matches Some(r2) && t2.db.nodes@[r2.index as int] matches Node::Leaf(l2)
            && l1.path@ == l2.path@ && l1.value@ == l2.value@),
    ensures
        t1.spec_root_hash() == t2.spec_root_hash(),
{
    let r1 = t1.root->Some_0;
    let r2 = t2.root->Some_0;
    let n1 = t1.db.nodes@[r1.index as int];
    let n2 = t2.db.nodes@[r2.index as int];
    assert(spec_node_encoding(t1.db.nodes@, n1, 0, r1.index as int) == spec_node_encoding(
        t2.db.nodes@,
        n2,
        0,
        r2.index as int,
    ));
}

/// Law: two inserts of distinct keys commute. Whichever order the two
/// pairs are written in, the resulting mapping is the same, each key
/// reads its own value, and every other key keeps what it had before.
pub proof fn lemma_insert_order_independent(
    t0: Trie,
    ta1: Trie,
    ta2: Trie,
    tb1: Trie,
    tb2: Trie,
    k1: Seq<u8>,
    v1: Seq<u8>,
    k2: Seq<u8>,
    v2: Seq<u8>,
)
    requires
        k1 != k2,
        forall|k: Seq<u8>|
            #[trigger] ta1.spec_mapping(k) == (if k == k1 {
                Some(v1)
            } else {
                t0.spec_mapping(k)
            }),
        forall|k: Seq<u8>|
            #[trigger] ta2.spec_mapping(k) == (if k == k2 {
                Some(v2)
            } else {
                ta1.spec_mapping(k)
            }),
        forall|k: Seq<u8>|
            #[trigger] tb1.spec_mapping(k) == (if k == k2 {
                Some(v2)
            } else {
                t0.spec_mapping(k)
            }),
        forall|k: Seq<u8>|
            #[trigger] tb2.spec_mapping(k) == (if k == k1 {
                Some(v1)
            } else {
                tb1.spec_mapping(k)
            }),
    ensures
        ta2.spec_mapping(k1) == Some(v1),
        ta2.spec_mapping(k2) == Some(v2),
        tb2.spec_mapping(k1) == Some(v1),
        tb2.spec_mapping(k2) == Some(v2),
        forall|k: Seq<u8>| #[trigger] ta2.spec_mapping(k) == tb2.spec_mapping(k),
{
    assert forall|k: Seq<u8>| #[trigger] ta2.spec_mapping(k) == tb2.spec_mapping(k) by {
        assert(ta1.spec_mapping(k) == (if k == k1 {
            Some(v1)
        } else {
            t0.spec_mapping(k)
        }));
        assert(tb1.spec_mapping(k) == (if k == k2 {
            Some(v2)
        } else {
            t0.spec_mapping(k)
        }));
    }
}

} // verus!
