//! The AVL tree facade: owns the root, memoises `num_leaves` and `height`,
//! and drives the height-driven fix-up walks.

use vstd::prelude::*;

use crate::avl_tree::{
    avl_as_set, avl_balanced, avl_balanced_except, avl_cached_height, avl_children_linked,
    avl_delete_spec, avl_fib, avl_find, avl_insert_bal_spec, avl_new_node_spec,
    avl_remove_key_spec, avl_solidify_spec, avl_virtualize_spec,
    avl_heights_ok, avl_heights_ok_except, avl_inorder, avl_lemma_cached, avl_lemma_counts,
    avl_lemma_inorder_sorted, avl_lemma_min_size,
    avl_lemma_parent_child, avl_min_spec, avl_no_nil, avl_node_at, avl_parents_ok,
    avl_print_rows, avl_root_nil_spec, avl_root_parent_spec, avl_size, avl_spec_height,
    avl_transplant_spec,
    avl_spec_leaves, avl_wf, AVLChild, AVLPrintRow, AVLTreeNode, Direction,
};
use crate::red_black_tree::{keys_sorted, SIZE_CAP};
use crate::tree_type::TraverseOrder;

verus! {

pub struct AVLTree {
    pub root: AVLChild,
    pub num_leaves: u128,
    pub height: u128,
    pub _is_num_leaves_available: bool,
    pub _is_height_available: bool,
}

impl AVLTree {
    /// The tree's invariant: binary-search-tree order, no nil sentinels
    /// outside the deletion bracket, consistent parent back references,
    /// correct cached heights at every node, every balance factor within
    /// one, a node count within the machine cap, and memoised values that
    /// are correct whenever their flag says they are available.
    pub closed spec fn wf(self) -> bool {
        &&& avl_wf(self.root)
        &&& avl_no_nil(self.root)
        &&& avl_parents_ok(self.root, None)
        &&& avl_heights_ok(self.root)
        &&& avl_balanced(self.root)
        &&& avl_size(self.root) <= SIZE_CAP
        &&& (self._is_num_leaves_available ==> self.num_leaves == avl_spec_leaves(self.root))
        &&& (self._is_height_available ==> self.height == avl_spec_height(self.root))
    }

    /// The set of keys the tree holds.
    pub closed spec fn spec_keys(self) -> Set<u64> {
        avl_as_set(self.root)
    }

    /// The in-order key sequence of the tree.
    pub closed spec fn spec_inorder(self) -> Seq<u64> {
        avl_inorder(self.root)
    }

    /// Number of nodes of the tree.
    pub closed spec fn spec_size(self) -> nat {
        avl_size(self.root)
    }

    /// An empty tree; the memoised queries start out invalid and are
    /// recomputed on first use.
    pub fn new() -> (t: AVLTree)
        ensures
            t.wf(),
            t.root.is_none(),
            t.spec_keys() =~= Set::<u64>::empty(),
            t.spec_size() == 0,
    {
        AVLTree {
            root: None,
            num_leaves: 0,
            height: 0,
            _is_num_leaves_available: false,
            _is_height_available: false,
        }
    }

    /// Whether the tree holds no real node.
    pub fn is_empty(&self) -> (r: bool)
        ensures
            r == avl_root_nil_spec(self.root),
            self.wf() ==> r == self.root.is_none(),
            self.wf() ==> (r <==> (self.spec_keys() =~= Set::<u64>::empty())),
    {
        proof {
            if self.wf() && self.root.is_some() {
                assert(avl_as_set(self.root).contains(self.root.unwrap().key));
            }
        }
        AVLTreeNode::get_root_nil(&self.root)
    }

    /// Whether `key` is held by the tree.
    pub fn search(&self, key: &u64) -> (r: bool)
        requires
            self.wf(),
        ensures
            r == self.spec_keys().contains(*key),
    {
        AVLTreeNode::contains_key(&self.root, *key)
    }

    /// Number of leaves, memoised.
    pub fn get_num_leaves(&mut self) -> (r: u128)
        requires
            old(self).wf(),
        ensures
            final(self).wf(),
            final(self).root == old(self).root,
            r == avl_spec_leaves(old(self).root),
    {
        if self._is_num_leaves_available {
            return self.num_leaves;
        }
        self.num_leaves = AVLTreeNode::count_leaves(&self.root);
        self._is_num_leaves_available = true;
        return self.num_leaves;
    }

    /// Height of the tree, memoised; answered from the root's cached
    /// height, which the invariant keeps equal to the recomputed height.
    pub fn get_height(&mut self) -> (r: u128)
        requires
            old(self).wf(),
        ensures
            final(self).wf(),
            final(self).root == old(self).root,
            r == avl_spec_height(old(self).root),
    {
        if self._is_height_available {
            return self.height;
        }
        proof {
            avl_lemma_cached(self.root);
        }
        self.height = AVLTreeNode::get_height(&self.root);
        self._is_height_available = true;
        return self.height;
    }

    /// Replace the subtree rooted at `u`'s node with the subtree rooted at
    /// `v`'s node, which must lie within it (`v` empty clears the slot):
    /// `u`'s node leaves the tree and `v`'s back reference is re-targeted
    /// to `u`'s old parent. Handles name nodes by their root keys. With
    /// single ownership a subtree cannot be referenced from two places, so
    /// unlike a shared-pointer graph this operation is confined to the one
    /// family of handles the balancers ever pass it: `v` inside `u`. The
    /// memoised queries are invalidated; the cached heights of the walked
    /// ancestors go stale until a fix-up walk refreshes them.
    pub fn transplant(&mut self, u: &AVLChild, v: &AVLChild)
        requires
            old(self).wf(),
            u.is_some(),
            avl_find(old(self).root, u.unwrap().key).is_some(),
            v.is_some() ==> avl_find(avl_find(old(self).root, u.unwrap().key), v.unwrap().key).is_some(),
        ensures
            final(self).root == avl_transplant_spec(old(self).root, u.unwrap().key,
                (match *v {
                    Some(vn) => Some(vn.key),
                    None => None,
                })),
            avl_wf(final(self).root),
            avl_no_nil(final(self).root),
            avl_parents_ok(final(self).root, None),
            avl_size(final(self).root) <= avl_size(old(self).root),
            avl_as_set(final(self).root) =~= avl_as_set(old(self).root)
                .difference(avl_as_set(avl_find(old(self).root, u.unwrap().key)))
                .union(avl_as_set(match *v {
                    Some(vn) => avl_find(avl_find(old(self).root, u.unwrap().key), vn.key),
                    None => None,
                })),
    {
        self._is_num_leaves_available = false;
        self._is_height_available = false;
        let uk = AVLTreeNode::get_root_key(u);
        let vk_opt = match v {
            Some(_) => Some(AVLTreeNode::get_root_key(v)),
            None => None,
        };
        proof {
            assert(avl_parents_ok(self.root, None));
        }
        AVLTreeNode::transplant_keys(&mut self.root, uk, vk_opt);
        proof {
            assert(avl_parents_ok(self.root, None));
        }
    }

    /// The tree dump as structured rows, one per node in preorder, with a
    /// marker row for every empty child slot.
    pub fn print_tree(&self) -> (r: Vec<AVLPrintRow>)
        requires
            self.wf(),
        ensures
            r@ == avl_print_rows(self.root, 0, Direction::Left),
    {
        proof {
            avl_lemma_counts(self.root);
        }
        AVLTreeNode::print_tree(&self.root)
    }

    /// Whether the AVL discipline holds of the tree: every node's balance
    /// factor stays within one and every cached height equals its
    /// recomputed height.
    pub fn check_invariants(&self) -> (r: bool)
        requires
            self.wf(),
        ensures
            r == (avl_balanced(self.root) && avl_heights_ok(self.root)),
    {
        let res = AVLTreeNode::check_balance(&self.root);
        res.0
    }

    /// The keys in ascending or descending order.
    pub fn traverse(&self, order: TraverseOrder) -> (r: Vec<u64>)
        ensures
            order == TraverseOrder::Ascending ==> r@ == self.spec_inorder(),
            order == TraverseOrder::Descending ==> r@ == self.spec_inorder().reverse(),
    {
        let mut out: Vec<u64> = Vec::new();
        match order {
            TraverseOrder::Ascending => {
                AVLTree::asc_collect(&self.root, &mut out);
            }
            TraverseOrder::Descending => {
                AVLTree::desc_collect(&self.root, &mut out);
            }
        }
        proof {
            assert(out@ =~= self.spec_inorder() || out@ =~= self.spec_inorder().reverse());
        }
        out
    }

    fn asc_collect(t: &AVLChild, out: &mut Vec<u64>)
        ensures
            final(out)@ =~= old(out)@ + avl_inorder(*t),
        decreases t,
    {
        match t {
            None => {}
            Some(n) => {
                if !n.is_nil {
                    AVLTree::asc_collect(&n.left_child, out);
                    out.push(n.key);
                    AVLTree::asc_collect(&n.right_child, out);
                }
            }
        }
    }

    fn desc_collect(t: &AVLChild, out: &mut Vec<u64>)
        ensures
            final(out)@ =~= old(out)@ + avl_inorder(*t).reverse(),
        decreases t,
    {
        match t {
            None => {}
            Some(n) => {
                if !n.is_nil {
                    AVLTree::desc_collect(&n.right_child, out);
                    out.push(n.key);
                    AVLTree::desc_collect(&n.left_child, out);
                    proof {
                        assert(avl_inorder(*t).reverse() =~= avl_inorder(n.right_child).reverse()
                            + seq![n.key] + avl_inorder(n.left_child).reverse());
                    }
                }
            }
        }
    }

    /// Walk the binary-search path of `key` and, on the way back up,
    /// refresh every walked node's cached height and re-apply the
    /// rotation table at every unbalanced ancestor — deletion can cascade,
    /// so the walk runs all the way to the root. It accepts the state a
    /// removal leaves behind: caches stale along the path of `key`, path
    /// nodes leaning as far as a balance factor of two (a leaning node's
    /// children balanced), everything off the path balanced; it restores
    /// the full AVL discipline with every cache refreshed, the key set
    /// untouched, and the height lowered by at most one. The memoised
    /// queries are invalidated.
    pub fn delete_fixup(&mut self, key: u64)
        requires
            avl_wf(old(self).root),
            avl_no_nil(old(self).root),
            avl_parents_ok(old(self).root, None),
            avl_heights_ok_except(old(self).root, key),
            avl_balanced_except(old(self).root, key),
            avl_size(old(self).root) <= SIZE_CAP,
        ensures
            avl_wf(final(self).root),
            avl_no_nil(final(self).root),
            avl_parents_ok(final(self).root, None),
            avl_heights_ok(final(self).root),
            avl_balanced(final(self).root),
            avl_spec_height(old(self).root) - 1 <= avl_spec_height(final(self).root),
            avl_spec_height(final(self).root) <= avl_spec_height(old(self).root),
            avl_as_set(final(self).root) =~= avl_as_set(old(self).root),
            avl_size(final(self).root) == avl_size(old(self).root),
            final(self).wf(),
    {
        self._is_num_leaves_available = false;
        self._is_height_available = false;
        proof {
            if old(self).root.is_some() {
                assert(avl_parents_ok(self.root, None));
            }
        }
        AVLTreeNode::walk_fix(&mut self.root, key);
        proof {
            assert(avl_parents_ok(self.root, None));
        }
    }

    /// Insert `key`: a no-op when it is already present, otherwise a
    /// binary-search-descent insertion followed by the height-driven
    /// re-balancing walk back to the root.
    pub fn insert(&mut self, key: &u64)
        requires
            old(self).wf(),
            old(self).spec_size() < SIZE_CAP,
        ensures
            final(self).wf(),
            final(self).spec_keys() =~= old(self).spec_keys().insert(*key),
            final(self).spec_size() <= old(self).spec_size() + 1,
            old(self).spec_keys().contains(*key) ==> final(self).root == old(self).root,
            !old(self).spec_keys().contains(*key) ==> final(self).root == (if old(self).root.is_some() {
                avl_insert_bal_spec(old(self).root, *key)
            } else {
                avl_new_node_spec(*key, None, false)
            }),
    {
        self._is_num_leaves_available = false;
        self._is_height_available = false;
        let k = *key;
        if self.root.is_some() {
            if AVLTreeNode::contains_key(&self.root, k) {
                proof {
                    assert(old(self).spec_keys().insert(k) =~= old(self).spec_keys());
                }
                return;
            }
            proof {
                assert(avl_parents_ok(self.root, None));
            }
            AVLTreeNode::insert_bal(&mut self.root, k);
            proof {
                assert(avl_parents_ok(self.root, None));
            }
        } else {
            self.root = AVLTreeNode::new(k);
            proof {
                assert(old(self).spec_keys() =~= Set::<u64>::empty());
                assert(avl_as_set(self.root) =~= old(self).spec_keys().insert(k));
            }
        }
    }

    /// Delete `key`: a no-op when it is absent, otherwise the structural
    /// removal under the nil-sentinel bracket with the height-driven
    /// re-balancing walk back to the root.
    pub fn delete(&mut self, key: &u64)
        requires
            old(self).wf(),
        ensures
            final(self).wf(),
            final(self).spec_keys() =~= old(self).spec_keys().remove(*key),
            final(self).spec_size() <= old(self).spec_size(),
            !old(self).spec_keys().contains(*key) ==> final(self).root == old(self).root,
            old(self).spec_keys().contains(*key)
                ==> final(self).root == avl_delete_spec(old(self).root, *key),
    {
        self._is_num_leaves_available = false;
        self._is_height_available = false;
        let k = *key;
        if self.root.is_none() {
            proof {
                assert(old(self).spec_keys() =~= Set::<u64>::empty());
                assert(old(self).spec_keys().remove(k) =~= old(self).spec_keys());
            }
            return;
        }
        if !AVLTreeNode::contains_key(&self.root, k) {
            proof {
                assert(old(self).spec_keys().remove(k) =~= old(self).spec_keys());
            }
            return;
        }
        let rk = AVLTreeNode::get_root_key(&self.root);
        if rk == k && AVLTreeNode::is_leaf(&self.root) {
            proof {
                let n = self.root.unwrap();
                assert(avl_as_set(n.left_child) =~= Set::<u64>::empty());
                assert(avl_as_set(n.right_child) =~= Set::<u64>::empty());
                assert(avl_as_set(self.root) =~= Set::<u64>::empty().insert(k));
            }
            self.root = None;
            proof {
                assert(avl_as_set(self.root) =~= old(self).spec_keys().remove(k));
                assert(self.root == avl_delete_spec(old(self).root, k));
            }
            return;
        }
        proof {
            assert(avl_parents_ok(self.root, None));
        }
        AVLTreeNode::solidify_all_nil(&mut self.root);
        proof {
            assert(self.root == avl_solidify_spec(old(self).root));
        }
        let ghost solid = self.root;
        AVLTreeNode::remove_bal(&mut self.root, k);
        proof {
            assert(self.root == avl_remove_key_spec(solid, k));
        }
        let ghost removed = self.root;
        if AVLTreeNode::get_root_nil(&self.root) {
            // the hole reached the root: nothing real is left
            self.root = None;
            proof {
                assert(avl_root_nil_spec(removed));
            }
        } else {
            AVLTreeNode::virtualize_all_nil(&mut self.root);
            proof {
                assert(!avl_root_nil_spec(removed));
                assert(self.root == avl_virtualize_spec(removed));
            }
        }
        proof {
            assert(avl_as_set(self.root) =~= old(self).spec_keys().remove(k));
            assert(avl_parents_ok(self.root, None));
            assert(self.root == avl_delete_spec(old(self).root, k));
        }
    }
}

/// After any sequence of operations that kept the tree well-formed, the
/// in-order traversal is a strictly increasing key sequence holding exactly
/// the tree's keys.
pub proof fn lemma_avl_inorder_sorted(t: AVLTree)
    requires
        t.wf(),
    ensures
        keys_sorted(t.spec_inorder()),
        forall|e: u64| t.spec_inorder().contains(e) <==> t.spec_keys().contains(e),
{
    avl_lemma_inorder_sorted(t.root);
}

/// For every non-root node of a well-formed tree, the parent back reference
/// names the owning parent, and the node stands in exactly one of that
/// parent's child slots.
pub proof fn lemma_avl_parent_child(t: AVLTree, path: Seq<Direction>)
    requires
        t.wf(),
        path.len() > 0,
        avl_node_at(t.root, path).is_some(),
    ensures
        avl_node_at(t.root, path.drop_last()).is_some(),
        avl_node_at(t.root, path).unwrap().parent
            == Some(avl_node_at(t.root, path.drop_last()).unwrap().key),
        (path.last() == Direction::Left ==> avl_node_at(t.root, path.drop_last()).unwrap().left_child
            == avl_node_at(t.root, path)),
        (path.last() == Direction::Right ==> avl_node_at(t.root, path.drop_last()).unwrap().right_child
            == avl_node_at(t.root, path)),
        !(avl_node_at(t.root, path.drop_last()).unwrap().left_child == avl_node_at(t.root, path)
            && avl_node_at(t.root, path.drop_last()).unwrap().right_child == avl_node_at(t.root, path)),
{
    avl_lemma_parent_child(t.root, path, None);
}

/// The descending traversal is the element-wise reverse of the ascending
/// one: together with `traverse`'s contract, the two orders mirror each
/// other exactly.
pub proof fn lemma_avl_traverse_reverse(t: AVLTree)
    ensures
        t.spec_inorder().reverse().len() == t.spec_inorder().len(),
        forall|i: int| 0 <= i < t.spec_inorder().len()
            ==> t.spec_inorder().reverse()[i] == t.spec_inorder()[t.spec_inorder().len() - 1 - i],
{
}

/// What the tree invariant gives a caller about the public root: the
/// open facts that connect the facade's closed view to the node graph.
pub proof fn lemma_avl_wf_unfolded(t: AVLTree)
    requires
        t.wf(),
    ensures
        avl_wf(t.root),
        avl_no_nil(t.root),
        avl_parents_ok(t.root, None),
        avl_heights_ok(t.root),
        avl_balanced(t.root),
        avl_size(t.root) <= SIZE_CAP,
        t.spec_keys() == avl_as_set(t.root),
        t.spec_inorder() == avl_inorder(t.root),
        t.spec_size() == avl_size(t.root),
        (t.spec_keys() =~= Set::<u64>::empty()) <==> t.root.is_none(),
{
    if t.root.is_some() {
        assert(avl_as_set(t.root).contains(t.root.unwrap().key));
    }
}

/// Every cached height of a well-formed tree equals the recomputed height,
/// so the memoised height query can answer from the root's cache.
pub proof fn lemma_avl_cached_heights(t: AVLTree)
    requires
        t.wf(),
    ensures
        avl_heights_ok(t.root),
        avl_cached_height(t.root) == avl_spec_height(t.root),
{
    avl_lemma_cached(t.root);
}

/// Every node of a well-formed tree keeps its balance factor within one:
/// the AVL discipline is an invariant of the tree, not just a property the
/// checker observes.
pub proof fn lemma_avl_balance_invariant(t: AVLTree)
    requires
        t.wf(),
    ensures
        avl_balanced(t.root),
{
}

/// The height of a well-formed tree is logarithmic in its node count, in
/// exact integer form: a tree of height `h` holds at least `fib(h+2) - 1`
/// nodes, which is the integer statement behind the familiar
/// `h <= 1.45 * log2(n + 2)` bound.
pub proof fn lemma_avl_height_bound(t: AVLTree)
    requires
        t.wf(),
    ensures
        avl_fib(avl_spec_height(t.root) + 2) <= t.spec_size() + 1,
{
    avl_lemma_min_size(t.root);
}

} // verus!
