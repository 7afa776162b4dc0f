//! The red-black tree facade: owns the root, memoises `num_leaves` and
//! `height`, and runs the insert and delete fix-ups.

use vstd::prelude::*;

use crate::red_black_tree::{
    keys_sorted, rb_as_set, rb_black_balanced, rb_child_color, rb_children_linked,
    rb_delete_fixup_spec, rb_delete_fixup_step, rb_find, rb_fixup_blacken, rb_inorder,
    rb_insert_fixup_spec, rb_insert_fixup_step, rb_insert_spec, rb_new_node_spec,
    rb_lemma_counts, rb_lemma_inorder_sorted, rb_lemma_min_key, rb_lemma_parent_child,
    rb_delete_spec, rb_min_spec, rb_no_nil,
    rb_no_red_red, rb_remove_key_spec, rb_solidify_spec, rb_transplant_spec, rb_virtualize_spec, rb_node_at, rb_parents_ok, rb_print_rows, rb_root_color_spec,
    rb_root_nil_spec, rb_root_parent_spec, rb_size, rb_spec_height, rb_spec_leaves, rb_wf,
    Direction, NodeColor, RBPrintRow, RBTChild, RBTreeNode, SIZE_CAP,
};

verus! {

/// Order of a traversal: ascending or descending by key.
#[derive(Clone, Copy, Debug, PartialEq, Eq, Structural)]
pub enum TraverseOrder {
    Ascending,
    Descending,
}

pub struct RedBlackTree {
    pub root: RBTChild,
    pub num_leaves: u128,
    pub height: u128,
    pub _is_num_leaves_available: bool,
    pub _is_height_available: bool,
}

impl RedBlackTree {
    /// The tree's invariant: binary-search-tree order, no nil sentinels
    /// outside the deletion bracket, consistent parent back references, a
    /// node count within the machine cap, and memoised values that are
    /// correct whenever their flag says they are available.
    pub closed spec fn wf(self) -> bool {
        &&& rb_wf(self.root)
        &&& rb_no_nil(self.root)
        &&& rb_parents_ok(self.root, None)
        &&& rb_size(self.root) <= SIZE_CAP
        &&& (self._is_num_leaves_available ==> self.num_leaves == rb_spec_leaves(self.root))
        &&& (self._is_height_available ==> self.height == rb_spec_height(self.root))
    }

    /// The set of keys the tree holds.
    pub closed spec fn spec_keys(self) -> Set<u64> {
        rb_as_set(self.root)
    }

    /// The in-order key sequence of the tree.
    pub closed spec fn spec_inorder(self) -> Seq<u64> {
        rb_inorder(self.root)
    }

    /// Number of nodes of the tree.
    pub closed spec fn spec_size(self) -> nat {
        rb_size(self.root)
    }

    /// An empty tree; the memoised queries start out invalid and are
    /// recomputed on first use.
    pub fn new() -> (t: RedBlackTree)
        ensures
            t.wf(),
            t.root.is_none(),
            t.spec_keys() =~= Set::<u64>::empty(),
            t.spec_size() == 0,
    {
        RedBlackTree {
            root: None,
            num_leaves: 0,
            height: 0,
            _is_num_leaves_available: false,
            _is_height_available: false,
        }
    }

    /// Whether the tree holds no real node.
    pub fn is_empty(&self) -> (r: bool)
        ensures
            r == rb_root_nil_spec(self.root),
            self.wf() ==> r == self.root.is_none(),
            self.wf() ==> (r <==> (self.spec_keys() =~= Set::<u64>::empty())),
    {
        proof {
            if self.wf() && self.root.is_some() {
                assert(rb_as_set(self.root).contains(self.root.unwrap().key));
            }
        }
        RBTreeNode::get_root_nil(&self.root)
    }

    /// Whether `key` is held by the tree.
    pub fn search(&self, key: &u64) -> (r: bool)
        requires
            self.wf(),
        ensures
            r == self.spec_keys().contains(*key),
    {
        RBTreeNode::contains_key(&self.root, *key)
    }

    /// Number of leaves, memoised.
    pub fn get_num_leaves(&mut self) -> (r: u128)
        requires
            old(self).wf(),
        ensures
            final(self).wf(),
            final(self).root == old(self).root,
            r == rb_spec_leaves(old(self).root),
    {
        if self._is_num_leaves_available {
            return self.num_leaves;
        }
        self.num_leaves = RBTreeNode::count_leaves(&self.root);
        self._is_num_leaves_available = true;
        return self.num_leaves;
    }

    /// Height of the tree, memoised.
    pub fn get_height(&mut self) -> (r: u128)
        requires
            old(self).wf(),
        ensures
            final(self).wf(),
            final(self).root == old(self).root,
            r == rb_spec_height(old(self).root),
    {
        if self._is_height_available {
            return self.height;
        }
        self.height = RBTreeNode::get_height(&self.root);
        self._is_height_available = true;
        return self.height;
    }

    /// Replace the subtree rooted at `u`'s node with the subtree rooted at
    /// `v`'s node, which must lie within it (`v` empty clears the slot):
    /// `u`'s node leaves the tree and `v`'s back reference is re-targeted
    /// to `u`'s old parent. Handles name nodes by their root keys. With
    /// single ownership a subtree cannot be referenced from two places, so
    /// unlike a shared-pointer graph this operation is confined to the one
    /// family of handles the balancers ever pass it: `v` inside `u`. The
    /// memoised queries are invalidated.
    pub fn transplant(&mut self, u: &RBTChild, v: &RBTChild)
        requires
            old(self).wf(),
            u.is_some(),
            rb_find(old(self).root, u.unwrap().key).is_some(),
            v.is_some() ==> rb_find(rb_find(old(self).root, u.unwrap().key), v.unwrap().key).is_some(),
        ensures
            final(self).root == rb_transplant_spec(old(self).root, u.unwrap().key,
                (match *v {
                    Some(vn) => Some(vn.key),
                    None => None,
                })),
            final(self).wf(),
            final(self).spec_keys() =~= old(self).spec_keys()
                .difference(rb_as_set(rb_find(old(self).root, u.unwrap().key)))
                .union(rb_as_set(match *v {
                    Some(vn) => rb_find(rb_find(old(self).root, u.unwrap().key), vn.key),
                    None => None,
                })),
            final(self).spec_size() <= old(self).spec_size(),
    {
        self._is_num_leaves_available = false;
        self._is_height_available = false;
        let uk = RBTreeNode::get_root_key(u);
        let vk_opt = match v {
            Some(_) => Some(RBTreeNode::get_root_key(v)),
            None => None,
        };
        proof {
            assert(rb_parents_ok(self.root, None));
        }
        RBTreeNode::transplant_keys(&mut self.root, uk, vk_opt);
        proof {
            assert(rb_parents_ok(self.root, None));
        }
    }

    /// The tree dump as structured rows, one per node in preorder, with a
    /// marker row for every empty child slot.
    pub fn print_tree(&self) -> (r: Vec<RBPrintRow>)
        requires
            self.wf(),
        ensures
            r@ == rb_print_rows(self.root, 0, Direction::Left),
    {
        proof {
            rb_lemma_counts(self.root);
        }
        RBTreeNode::print_tree(&self.root)
    }

    /// Whether the classic red-black colour discipline holds of the tree:
    /// the root is Black, no Red node has a Red child, and every
    /// root-to-absent-child path carries the same number of Black nodes.
    pub fn check_invariants(&self) -> (r: bool)
        requires
            self.wf(),
        ensures
            r == (rb_root_color_spec(self.root) == NodeColor::Black
                && rb_no_red_red(self.root) && rb_black_balanced(self.root)),
    {
        let colors = RBTreeNode::check_colors(&self.root);
        let root_black = match RBTreeNode::get_root_color(&self.root) {
            NodeColor::Black => true,
            NodeColor::Red => false,
        };
        root_black && colors.0
    }

    /// A detached copy of the subtree rooted at the smallest key.
    pub fn get_minimum(&self) -> (r: RBTChild)
        requires
            self.root.is_some(),
        ensures
            r == rb_min_spec(self.root),
            self.wf() ==> (r.is_some() && self.spec_keys().contains(r.unwrap().key)
                && (forall|e: u64| self.spec_keys().contains(e) ==> r.unwrap().key <= e)),
    {
        proof {
            if self.wf() {
                rb_lemma_min_key(self.root);
            }
        }
        RBTreeNode::get_minimum(&self.root)
    }

    /// The keys in ascending or descending order.
    pub fn traverse(&self, order: TraverseOrder) -> (r: Vec<u64>)
        ensures
            order == TraverseOrder::Ascending ==> r@ == self.spec_inorder(),
            order == TraverseOrder::Descending ==> r@ == self.spec_inorder().reverse(),
    {
        let mut out: Vec<u64> = Vec::new();
        match order {
            TraverseOrder::Ascending => {
                RedBlackTree::asc_collect(&self.root, &mut out);
            }
            TraverseOrder::Descending => {
                RedBlackTree::desc_collect(&self.root, &mut out);
            }
        }
        proof {
            assert(out@ =~= self.spec_inorder() || out@ =~= self.spec_inorder().reverse());
        }
        out
    }

    fn asc_collect(t: &RBTChild, out: &mut Vec<u64>)
        ensures
            final(out)@ =~= old(out)@ + rb_inorder(*t),
        decreases t,
    {
        match t {
            None => {}
            Some(n) => {
                if !n.is_nil {
                    RedBlackTree::asc_collect(&n.left_child, out);
                    out.push(n.key);
                    RedBlackTree::asc_collect(&n.right_child, out);
                }
            }
        }
    }

    fn desc_collect(t: &RBTChild, out: &mut Vec<u64>)
        ensures
            final(out)@ =~= old(out)@ + rb_inorder(*t).reverse(),
        decreases t,
    {
        match t {
            None => {}
            Some(n) => {
                if !n.is_nil {
                    RedBlackTree::desc_collect(&n.right_child, out);
                    out.push(n.key);
                    RedBlackTree::desc_collect(&n.left_child, out);
                    proof {
                        assert(rb_inorder(*t).reverse() =~= rb_inorder(n.right_child).reverse()
                            + seq![n.key] + rb_inorder(n.left_child).reverse());
                    }
                }
            }
        }
    }

    /// Insert `key`: a no-op when it is already present, otherwise a
    /// binary-search-descent insertion of a Red leaf followed by the
    /// recolour-and-rotate fix-up walk, with the root forced Black.
    pub fn insert(&mut self, key: &u64)
        requires
            old(self).wf(),
            old(self).spec_size() < SIZE_CAP,
        ensures
            final(self).wf(),
            final(self).spec_keys() =~= old(self).spec_keys().insert(*key),
            final(self).spec_size() <= old(self).spec_size() + 1,
            old(self).spec_keys().contains(*key) ==> final(self).root == old(self).root,
            !old(self).spec_keys().contains(*key)
                ==> rb_root_color_spec(final(self).root) == NodeColor::Black,
            !old(self).spec_keys().contains(*key) ==> final(self).root == rb_insert_fixup_spec(
                (if old(self).root.is_some() {
                    rb_insert_spec(old(self).root, *key)
                } else {
                    rb_new_node_spec(*key, NodeColor::Black, None, false)
                }),
                *key, SIZE_CAP as nat),
    {
        self._is_num_leaves_available = false;
        self._is_height_available = false;
        let k = *key;
        if self.root.is_some() {
            if RBTreeNode::contains_key(&self.root, k) {
                proof {
                    assert(old(self).spec_keys().insert(k) =~= old(self).spec_keys());
                }
                return;
            }
            proof {
                assert(rb_parents_ok(self.root, None));
            }
            RBTreeNode::insert_node(&mut self.root, k);
        } else {
            self.root = RBTreeNode::new(k);
            proof {
                assert(old(self).spec_keys() =~= Set::<u64>::empty());
                assert(rb_as_set(self.root) =~= old(self).spec_keys().insert(k));
            }
        }
        let ghost keys1 = rb_as_set(self.root);
        let ghost size1 = rb_size(self.root);
        let ghost base = self.root;
        let ghost target_fix = rb_insert_fixup_spec(base, k, SIZE_CAP as nat);
        proof {
            assert(keys1 =~= old(self).spec_keys().insert(k));
            assert(base == (if old(self).root.is_some() {
                rb_insert_spec(old(self).root, k)
            } else {
                rb_new_node_spec(k, NodeColor::Black, None, false)
            }));
        }

        let mut z_key = k;
        // the walk climbs at least one level per iteration, so it can never
        // use up this budget
        let mut steps: u64 = SIZE_CAP;
        loop
            invariant
                self.root.is_some(),
                rb_wf(self.root),
                rb_no_nil(self.root),
                rb_children_linked(self.root),
                rb_root_parent_spec(self.root) == None::<u64>,
                rb_as_set(self.root) == keys1,
                rb_size(self.root) == size1,
                size1 <= SIZE_CAP,
                self._is_num_leaves_available == false,
                self._is_height_available == false,
                rb_insert_fixup_spec(self.root, z_key, steps as nat) == target_fix,
            ensures
                rb_fixup_blacken(self.root, None) == target_fix,
            decreases steps,
        {
            if steps == 0 {
                break;
            }
            let ghost s_head = steps as nat;
            let ghost t_head = self.root;
            let ghost z_head = z_key;
            steps = steps - 1;
            let pk_opt = RBTreeNode::parent_key_of(&self.root, z_key);
            if pk_opt.is_none() {
                proof {
                    assert(rb_insert_fixup_spec(self.root, z_key, steps as nat)
                        == rb_fixup_blacken(self.root, None));
                    assert(rb_insert_fixup_spec(t_head, z_head, s_head)
                        == rb_fixup_blacken(self.root, None));
                }
                break;
            }
            let p_key = pk_opt.unwrap();
            let p_color = RBTreeNode::get_color(&self.root, p_key);
            if p_color != NodeColor::Red {
                proof {
                    assert(rb_insert_fixup_spec(self.root, z_key, steps as nat)
                        == rb_fixup_blacken(self.root, None));
                    assert(rb_insert_fixup_spec(t_head, z_head, s_head)
                        == rb_fixup_blacken(self.root, None));
                }
                break;
            }
            let g_opt = RBTreeNode::parent_key_of(&self.root, p_key);
            if g_opt.is_none() {
                proof {
                    assert(rb_insert_fixup_spec(self.root, z_key, steps as nat)
                        == rb_fixup_blacken(self.root, None));
                    assert(rb_insert_fixup_spec(t_head, z_head, s_head)
                        == rb_fixup_blacken(self.root, None));
                }
                break;
            }
            let g_key = g_opt.unwrap();
            let gl = RBTreeNode::child_info(&self.root, g_key, Direction::Left);
            if gl.0 && gl.1 == p_key {
                // the parent is a left child; the uncle is the right child
                let uncle = RBTreeNode::child_info(&self.root, g_key, Direction::Right);
                if uncle.2 == NodeColor::Red {
                    RBTreeNode::set_color_by_key(&mut self.root, p_key, NodeColor::Black);
                    if uncle.0 {
                        RBTreeNode::set_color_by_key(&mut self.root, uncle.1, NodeColor::Black);
                    }
                    RBTreeNode::set_color_by_key(&mut self.root, g_key, NodeColor::Red);
                    z_key = g_key;
                } else {
                    let pr = RBTreeNode::child_info(&self.root, p_key, Direction::Right);
                    if pr.0 && pr.1 == z_key {
                        z_key = p_key;
                        let t = self.root.take();
                        self.root = RBTreeNode::left_rotate(t, z_key);
                    }
                    let pz_opt = RBTreeNode::parent_key_of(&self.root, z_key);
                    if pz_opt.is_some() {
                        let pz = pz_opt.unwrap();
                        RBTreeNode::set_color_by_key(&mut self.root, pz, NodeColor::Black);
                        let gz_opt = RBTreeNode::parent_key_of(&self.root, pz);
                        if gz_opt.is_some() {
                            let gz = gz_opt.unwrap();
                            RBTreeNode::set_color_by_key(&mut self.root, gz, NodeColor::Red);
                            let t = self.root.take();
                            self.root = RBTreeNode::right_rotate(t, gz);
                        }
                    }
                }
            } else {
                // the parent is a right child; the uncle is the left child
                let uncle = RBTreeNode::child_info(&self.root, g_key, Direction::Left);
                if uncle.2 == NodeColor::Red {
                    RBTreeNode::set_color_by_key(&mut self.root, p_key, NodeColor::Black);
                    if uncle.0 {
                        RBTreeNode::set_color_by_key(&mut self.root, uncle.1, NodeColor::Black);
                    }
                    RBTreeNode::set_color_by_key(&mut self.root, g_key, NodeColor::Red);
                    z_key = g_key;
                } else {
                    let pl = RBTreeNode::child_info(&self.root, p_key, Direction::Left);
                    if pl.0 && pl.1 == z_key {
                        z_key = p_key;
                        let t = self.root.take();
                        self.root = RBTreeNode::right_rotate(t, z_key);
                    }
                    let pz_opt = RBTreeNode::parent_key_of(&self.root, z_key);
                    if pz_opt.is_some() {
                        let pz = pz_opt.unwrap();
                        RBTreeNode::set_color_by_key(&mut self.root, pz, NodeColor::Black);
                        let gz_opt = RBTreeNode::parent_key_of(&self.root, pz);
                        if gz_opt.is_some() {
                            let gz = gz_opt.unwrap();
                            RBTreeNode::set_color_by_key(&mut self.root, gz, NodeColor::Red);
                            let t = self.root.take();
                            self.root = RBTreeNode::left_rotate(t, gz);
                        }
                    }
                }
            }
            proof {
                let stepres = rb_insert_fixup_step(t_head, z_head, p_key, g_key);
                assert(self.root == stepres.0);
                assert(z_key == stepres.1);
                assert(rb_insert_fixup_spec(t_head, z_head, s_head)
                    == rb_insert_fixup_spec(self.root, z_key, steps as nat));
            }
        }
        // force the root Black
        let rk = RBTreeNode::get_root_key(&self.root);
        RBTreeNode::set_color_by_key(&mut self.root, rk, NodeColor::Black);
        proof {
            assert(rb_parents_ok(self.root, None));
            assert(rb_as_set(self.root) =~= old(self).spec_keys().insert(k));
            assert(self.root == target_fix);
        }
    }

    /// Delete `key`: a no-op when it is absent, otherwise the structural
    /// removal under the nil-sentinel bracket, with the Black-depth fix-up
    /// when a Black node left the tree.
    pub fn delete(&mut self, key: &u64)
        requires
            old(self).wf(),
        ensures
            final(self).wf(),
            final(self).spec_keys() =~= old(self).spec_keys().remove(*key),
            final(self).spec_size() <= old(self).spec_size(),
            !old(self).spec_keys().contains(*key) ==> final(self).root == old(self).root,
            old(self).spec_keys().contains(*key)
                ==> final(self).root == rb_delete_spec(old(self).root, *key),
    {
        self._is_num_leaves_available = false;
        self._is_height_available = false;
        let k = *key;
        if self.root.is_none() {
            proof {
                assert(old(self).spec_keys() =~= Set::<u64>::empty());
                assert(old(self).spec_keys().remove(k) =~= old(self).spec_keys());
            }
            return;
        }
        if !RBTreeNode::contains_key(&self.root, k) {
            proof {
                assert(old(self).spec_keys().remove(k) =~= old(self).spec_keys());
            }
            return;
        }
        let rk = RBTreeNode::get_root_key(&self.root);
        if rk == k && RBTreeNode::is_leaf(&self.root) {
            proof {
                let n = self.root.unwrap();
                assert(rb_as_set(n.left_child) =~= Set::<u64>::empty());
                assert(rb_as_set(n.right_child) =~= Set::<u64>::empty());
                assert(rb_as_set(self.root) =~= Set::<u64>::empty().insert(k));
            }
            self.root = None;
            proof {
                assert(rb_as_set(self.root) =~= old(self).spec_keys().remove(k));
                assert(self.root == rb_delete_spec(old(self).root, k));
            }
            return;
        }
        proof {
            assert(rb_parents_ok(self.root, None));
        }
        RBTreeNode::solidify_all_nil(&mut self.root);
        proof {
            assert(self.root == rb_solidify_spec(old(self).root));
        }
        let ghost solid = self.root;
        let res = RBTreeNode::remove_key(&mut self.root, k);
        let y_orig_color = res.0;
        let hole = res.1;
        proof {
            assert((self.root, y_orig_color, hole) == rb_remove_key_spec(solid, k));
        }
        let ghost removed = self.root;
        if y_orig_color == NodeColor::Black && self.root.is_some() {
            self.delete_fixup(hole);
        }
        proof {
            assert(self.root == (if rb_remove_key_spec(solid, k).1 == NodeColor::Black
                && rb_remove_key_spec(solid, k).0.is_some() {
                rb_delete_fixup_spec(rb_remove_key_spec(solid, k).0, rb_remove_key_spec(solid, k).2, SIZE_CAP as nat)
            } else {
                rb_remove_key_spec(solid, k).0
            }));
        }
        let ghost fixed = self.root;
        if RBTreeNode::get_root_nil(&self.root) {
            // the hole reached the root: nothing real is left
            self.root = None;
            proof {
                assert(rb_root_nil_spec(fixed));
            }
        } else {
            RBTreeNode::virtualize_all_nil(&mut self.root);
            proof {
                assert(!rb_root_nil_spec(fixed));
                assert(self.root == rb_virtualize_spec(fixed));
            }
        }
        proof {
            assert(rb_as_set(self.root) =~= old(self).spec_keys().remove(k));
            assert(rb_parents_ok(self.root, None));
            assert(self.root == rb_delete_spec(old(self).root, k));
        }
    }

    /// The four-case sibling walk of the red-black delete fix-up, starting
    /// from the hole left by the removal: `None` names the root slot,
    /// `Some((pk, dir))` the `dir` child slot of the node carrying `pk`.
    fn delete_fixup(&mut self, fix_hole: Option<(u64, Direction)>)
        requires
            old(self).root.is_some(),
            rb_wf(old(self).root),
            rb_children_linked(old(self).root),
            rb_root_parent_spec(old(self).root) == None::<u64>,
        ensures
            final(self).root == rb_delete_fixup_spec(old(self).root, fix_hole, SIZE_CAP as nat),
            final(self).root.is_some(),
            rb_wf(final(self).root),
            rb_children_linked(final(self).root),
            rb_root_parent_spec(final(self).root) == None::<u64>,
            rb_as_set(final(self).root) =~= rb_as_set(old(self).root),
            rb_size(final(self).root) == rb_size(old(self).root),
            final(self).num_leaves == old(self).num_leaves,
            final(self).height == old(self).height,
            final(self)._is_num_leaves_available == old(self)._is_num_leaves_available,
            final(self)._is_height_available == old(self)._is_height_available,
    {
        let ghost keys0 = rb_as_set(old(self).root);
        let ghost size0 = rb_size(old(self).root);
        let ghost target = rb_delete_fixup_spec(old(self).root, fix_hole, SIZE_CAP as nat);
        let mut x_addr = fix_hole;
        // the walk climbs at least one level per iteration, so it can never
        // use up this budget
        let mut steps: u64 = SIZE_CAP;
        loop
            invariant
                self.root.is_some(),
                rb_wf(self.root),
                rb_children_linked(self.root),
                rb_root_parent_spec(self.root) == None::<u64>,
                rb_as_set(self.root) == keys0,
                rb_size(self.root) == size0,
                self.num_leaves == old(self).num_leaves,
                self.height == old(self).height,
                self._is_num_leaves_available == old(self)._is_num_leaves_available,
                self._is_height_available == old(self)._is_height_available,
                rb_delete_fixup_spec(self.root, x_addr, steps as nat) == target,
            ensures
                rb_fixup_blacken(self.root, x_addr) == target,
            decreases steps,
        {
            if steps == 0 {
                break;
            }
            let ghost s_head = steps as nat;
            let ghost t_head = self.root;
            let ghost a_head = x_addr;
            steps = steps - 1;
            if x_addr.is_none() {
                // x is the root
                proof {
                    assert(rb_delete_fixup_spec(self.root, x_addr, steps as nat)
                        == rb_fixup_blacken(self.root, x_addr));
                    assert(rb_delete_fixup_spec(t_head, a_head, s_head)
                        == rb_fixup_blacken(self.root, x_addr));
                }
                break;
            }
            let addr = x_addr.unwrap();
            let p_key = addr.0;
            let x_dir = addr.1;
            let x_info = RBTreeNode::child_info(&self.root, p_key, x_dir);
            if x_info.2 == NodeColor::Red {
                proof {
                    assert(rb_child_color(self.root, p_key, x_dir) == NodeColor::Red);
                    assert(rb_delete_fixup_spec(self.root, x_addr, steps as nat)
                        == rb_fixup_blacken(self.root, x_addr));
                    assert(rb_delete_fixup_spec(t_head, a_head, s_head)
                        == rb_fixup_blacken(self.root, x_addr));
                }
                break;
            }
            proof {
                assert(rb_child_color(t_head, p_key, x_dir) == NodeColor::Black);
            }
            if x_dir == Direction::Left {
                let w1 = RBTreeNode::child_info(&self.root, p_key, Direction::Right);
                if w1.2 == NodeColor::Red {
                    // type 1: the sibling is Red
                    if w1.0 {
                        RBTreeNode::set_color_by_key(&mut self.root, w1.1, NodeColor::Black);
                    }
                    RBTreeNode::set_color_by_key(&mut self.root, p_key, NodeColor::Red);
                    let t = self.root.take();
                    self.root = RBTreeNode::left_rotate(t, p_key);
                }
                let w = RBTreeNode::child_info(&self.root, p_key, Direction::Right);
                let wl = if w.0 {
                    RBTreeNode::child_info(&self.root, w.1, Direction::Left)
                } else {
                    (false, 0u64, NodeColor::Black)
                };
                let wr = if w.0 {
                    RBTreeNode::child_info(&self.root, w.1, Direction::Right)
                } else {
                    (false, 0u64, NodeColor::Black)
                };
                if wl.2 == NodeColor::Black && wr.2 == NodeColor::Black {
                    // type 2: both of the sibling's children are Black
                    if w.0 {
                        RBTreeNode::set_color_by_key(&mut self.root, w.1, NodeColor::Red);
                    }
                    let gp = RBTreeNode::parent_key_of(&self.root, p_key);
                    if gp.is_none() {
                        x_addr = None;
                    } else {
                        let g = gp.unwrap();
                        let gl = RBTreeNode::child_info(&self.root, g, Direction::Left);
                        if gl.0 && gl.1 == p_key {
                            x_addr = Some((g, Direction::Left));
                        } else {
                            x_addr = Some((g, Direction::Right));
                        }
                    }
                } else {
                    if wr.2 == NodeColor::Black {
                        // type 3: the far child is Black, the near one Red
                        if wl.0 {
                            RBTreeNode::set_color_by_key(&mut self.root, wl.1, NodeColor::Black);
                        }
                        if w.0 {
                            RBTreeNode::set_color_by_key(&mut self.root, w.1, NodeColor::Red);
                            let t = self.root.take();
                            self.root = RBTreeNode::right_rotate(t, w.1);
                        }
                    }
                    // type 4: the far child is Red
                    let w2 = RBTreeNode::child_info(&self.root, p_key, Direction::Right);
                    let p_color = RBTreeNode::get_color(&self.root, p_key);
                    if w2.0 {
                        RBTreeNode::set_color_by_key(&mut self.root, w2.1, p_color);
                        RBTreeNode::set_child_color(&mut self.root, w2.1, Direction::Right, NodeColor::Black);
                    }
                    RBTreeNode::set_color_by_key(&mut self.root, p_key, NodeColor::Black);
                    let t = self.root.take();
                    self.root = RBTreeNode::left_rotate(t, p_key);
                    x_addr = None;
                }
            } else {
                let w1 = RBTreeNode::child_info(&self.root, p_key, Direction::Left);
                if w1.2 == NodeColor::Red {
                    // type 1: the sibling is Red
                    if w1.0 {
                        RBTreeNode::set_color_by_key(&mut self.root, w1.1, NodeColor::Black);
                    }
                    RBTreeNode::set_color_by_key(&mut self.root, p_key, NodeColor::Red);
                    let t = self.root.take();
                    self.root = RBTreeNode::right_rotate(t, p_key);
                }
                let w = RBTreeNode::child_info(&self.root, p_key, Direction::Left);
                let wr = if w.0 {
                    RBTreeNode::child_info(&self.root, w.1, Direction::Right)
                } else {
                    (false, 0u64, NodeColor::Black)
                };
                let wl = if w.0 {
                    RBTreeNode::child_info(&self.root, w.1, Direction::Left)
                } else {
                    (false, 0u64, NodeColor::Black)
                };
                if wr.2 == NodeColor::Black && wl.2 == NodeColor::Black {
                    // type 2: both of the sibling's children are Black
                    if w.0 {
                        RBTreeNode::set_color_by_key(&mut self.root, w.1, NodeColor::Red);
                    }
                    let gp = RBTreeNode::parent_key_of(&self.root, p_key);
                    if gp.is_none() {
                        x_addr = None;
                    } else {
                        let g = gp.unwrap();
                        let gl = RBTreeNode::child_info(&self.root, g, Direction::Left);
                        if gl.0 && gl.1 == p_key {
                            x_addr = Some((g, Direction::Left));
                        } else {
                            x_addr = Some((g, Direction::Right));
                        }
                    }
                } else {
                    if wl.2 == NodeColor::Black {
                        // type 3: the far child is Black, the near one Red
                        if wr.0 {
                            RBTreeNode::set_color_by_key(&mut self.root, wr.1, NodeColor::Black);
                        }
                        if w.0 {
                            RBTreeNode::set_color_by_key(&mut self.root, w.1, NodeColor::Red);
                            let t = self.root.take();
                            self.root = RBTreeNode::left_rotate(t, w.1);
                        }
                    }
                    // type 4: the far child is Red
                    let w2 = RBTreeNode::child_info(&self.root, p_key, Direction::Left);
                    let p_color = RBTreeNode::get_color(&self.root, p_key);
                    if w2.0 {
                        RBTreeNode::set_color_by_key(&mut self.root, w2.1, p_color);
                        RBTreeNode::set_child_color(&mut self.root, w2.1, Direction::Left, NodeColor::Black);
                    }
                    RBTreeNode::set_color_by_key(&mut self.root, p_key, NodeColor::Black);
                    let t = self.root.take();
                    self.root = RBTreeNode::right_rotate(t, p_key);
                    x_addr = None;
                }
            }
            proof {
                let stepres = rb_delete_fixup_step(t_head, p_key, x_dir);
                assert(self.root == stepres.0);
                assert(x_addr == stepres.1);
                assert(rb_delete_fixup_spec(t_head, a_head, s_head)
                    == rb_delete_fixup_spec(self.root, x_addr, steps as nat));
            }
        }
        // force x Black
        if x_addr.is_none() {
            let rk = RBTreeNode::get_root_key(&self.root);
            RBTreeNode::set_color_by_key(&mut self.root, rk, NodeColor::Black);
        } else {
            let addr = x_addr.unwrap();
            RBTreeNode::set_child_color(&mut self.root, addr.0, addr.1, NodeColor::Black);
        }
        proof {
            assert(self.root == target);
        }
    }
}

/// What the tree invariant gives a caller about the public root: the
/// open facts that connect the facade's closed view to the node graph.
pub proof fn lemma_rb_wf_unfolded(t: RedBlackTree)
    requires
        t.wf(),
    ensures
        rb_wf(t.root),
        rb_no_nil(t.root),
        rb_parents_ok(t.root, None),
        rb_size(t.root) <= SIZE_CAP,
        t.spec_keys() == rb_as_set(t.root),
        t.spec_inorder() == rb_inorder(t.root),
        t.spec_size() == rb_size(t.root),
        (t.spec_keys() =~= Set::<u64>::empty()) <==> t.root.is_none(),
{
    if t.root.is_some() {
        assert(rb_as_set(t.root).contains(t.root.unwrap().key));
    }
}

/// After any sequence of operations that kept the tree well-formed, the
/// in-order traversal is a strictly increasing key sequence holding exactly
/// the tree's keys.
pub proof fn lemma_rb_inorder_sorted(t: RedBlackTree)
    requires
        t.wf(),
    ensures
        keys_sorted(t.spec_inorder()),
        forall|e: u64| t.spec_inorder().contains(e) <==> t.spec_keys().contains(e),
{
    rb_lemma_inorder_sorted(t.root);
}

/// For every non-root node of a well-formed tree, the parent back reference
/// names the owning parent, and the node stands in exactly one of that
/// parent's child slots.
pub proof fn lemma_rb_parent_child(t: RedBlackTree, path: Seq<Direction>)
    requires
        t.wf(),
        path.len() > 0,
        rb_node_at(t.root, path).is_some(),
    ensures
        rb_node_at(t.root, path.drop_last()).is_some(),
        rb_node_at(t.root, path).unwrap().parent
            == Some(rb_node_at(t.root, path.drop_last()).unwrap().key),
        (path.last() == Direction::Left ==> rb_node_at(t.root, path.drop_last()).unwrap().left_child
            == rb_node_at(t.root, path)),
        (path.last() == Direction::Right ==> rb_node_at(t.root, path.drop_last()).unwrap().right_child
            == rb_node_at(t.root, path)),
        !(rb_node_at(t.root, path.drop_last()).unwrap().left_child == rb_node_at(t.root, path)
            && rb_node_at(t.root, path.drop_last()).unwrap().right_child == rb_node_at(t.root, path)),
{
    rb_lemma_parent_child(t.root, path, None);
}

/// The descending traversal is the element-wise reverse of the ascending
/// one: together with `traverse`'s contract, the two orders mirror each
/// other exactly.
pub proof fn lemma_rb_traverse_reverse(t: RedBlackTree)
    ensures
        t.spec_inorder().reverse().len() == t.spec_inorder().len(),
        forall|i: int| 0 <= i < t.spec_inorder().len()
            ==> t.spec_inorder().reverse()[i] == t.spec_inorder()[t.spec_inorder().len() - 1 - i],
{
}

/// Deleting a key leaves a key set without it, so a search after a delete
/// of the same key answers false; deleting an absent key leaves the key
/// set unchanged, as `delete`'s contract refines to an untouched structure.
pub proof fn lemma_delete_then_search(keys: Set<u64>, k: u64)
    ensures
        !keys.remove(k).contains(k),
        !keys.contains(k) ==> keys.remove(k) =~= keys,
{
}

/// Inserting a key makes it present, and inserting it again adds nothing:
/// together with `insert`'s contract (a present key leaves the structure
/// untouched), repeated insertion of one key changes the tree only once.
pub proof fn lemma_insert_idempotent(keys: Set<u64>, k: u64)
    ensures
        keys.insert(k).contains(k),
        keys.insert(k).insert(k) =~= keys.insert(k),
{
}

} // verus!
