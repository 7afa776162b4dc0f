//! AVL tree node graph: the node record with its cached height, parent/child
//! linkage and the structural helpers the balancer is built from.
//!
//! Children are owning edges (`Option<Box<..>>`); the parent back reference
//! is the parent's key (keys are unique), re-targeted whenever a structural
//! edge moves. Nil sentinels (`is_nil`) exist only inside the deletion
//! bracket; every specification prunes them, so a nil node contributes no
//! keys, no height and no leaves.

use vstd::prelude::*;

use crate::red_black_tree::{keys_sorted, SIZE_CAP};

verus! {

#[derive(Clone, Copy, Debug, PartialEq, Eq, Structural)]
pub enum Direction {
    Left,
    Right,
}

pub type AVLChild = Option<Box<AVLTreeNode>>;

pub struct AVLTreeNode {
    pub key: u64,
    pub parent: Option<u64>,
    pub left_child: AVLChild,
    pub right_child: AVLChild,
    pub is_nil: bool,
    pub height: u128,
}

/// The set of keys held by the real (non-nil) nodes of the subtree.
pub open spec fn avl_as_set(t: AVLChild) -> Set<u64>
    decreases t,
{
    match t {
        None => Set::empty(),
        Some(n) => {
            if n.is_nil {
                Set::empty()
            } else {
                avl_as_set(n.left_child).union(avl_as_set(n.right_child)).insert(n.key)
            }
        }
    }
}

/// Binary-search-tree order over the real nodes, plus: a nil sentinel is
/// always a leaf.
pub open spec fn avl_wf(t: AVLChild) -> bool
    decreases t,
{
    match t {
        None => true,
        Some(n) => {
            if n.is_nil {
                n.left_child.is_none() && n.right_child.is_none()
            } else {
                &&& (forall|e: u64| avl_as_set(n.left_child).contains(e) ==> e < n.key)
                &&& (forall|e: u64| avl_as_set(n.right_child).contains(e) ==> e > n.key)
                &&& avl_wf(n.left_child)
                &&& avl_wf(n.right_child)
            }
        }
    }
}

/// Every node's parent back reference equals `pk` at the root of `t` and the
/// owning node's key below it.
pub open spec fn avl_parents_ok(t: AVLChild, pk: Option<u64>) -> bool
    decreases t,
{
    match t {
        None => true,
        Some(n) => {
            &&& n.parent == pk
            &&& avl_parents_ok(n.left_child, Some(n.key))
            &&& avl_parents_ok(n.right_child, Some(n.key))
        }
    }
}

/// `avl_parents_ok` for both children, leaving the root's own back reference
/// unconstrained.
pub open spec fn avl_children_linked(t: AVLChild) -> bool {
    match t {
        None => true,
        Some(n) => {
            avl_parents_ok(n.left_child, Some(n.key)) && avl_parents_ok(n.right_child, Some(n.key))
        }
    }
}

/// No nil sentinel anywhere: the state outside the deletion bracket.
pub open spec fn avl_no_nil(t: AVLChild) -> bool
    decreases t,
{
    match t {
        None => true,
        Some(n) => !n.is_nil && avl_no_nil(n.left_child) && avl_no_nil(n.right_child),
    }
}

/// Number of real (non-nil) nodes.
pub open spec fn avl_size(t: AVLChild) -> nat
    decreases t,
{
    match t {
        None => 0,
        Some(n) => {
            if n.is_nil {
                0
            } else {
                1 + avl_size(n.left_child) + avl_size(n.right_child)
            }
        }
    }
}

/// True height of the subtree; absent and nil children contribute 0.
pub open spec fn avl_spec_height(t: AVLChild) -> nat
    decreases t,
{
    match t {
        None => 0,
        Some(n) => {
            if n.is_nil {
                0
            } else if avl_spec_height(n.left_child) >= avl_spec_height(n.right_child) {
                1 + avl_spec_height(n.left_child)
            } else {
                1 + avl_spec_height(n.right_child)
            }
        }
    }
}

/// The height the cache answers for the subtree's root: 0 for an absent or
/// nil child, the stored field otherwise.
pub open spec fn avl_cached_height(t: AVLChild) -> u128 {
    match t {
        None => 0,
        Some(n) => {
            if n.is_nil {
                0
            } else {
                n.height
            }
        }
    }
}

/// Every real node's cached height equals its recomputed height.
pub open spec fn avl_heights_ok(t: AVLChild) -> bool
    decreases t,
{
    match t {
        None => true,
        Some(n) => {
            if n.is_nil {
                true
            } else {
                &&& n.height == avl_spec_height(t)
                &&& avl_heights_ok(n.left_child)
                &&& avl_heights_ok(n.right_child)
            }
        }
    }
}

/// Balance factor from true heights: height of the right subtree minus
/// height of the left one.
pub open spec fn avl_spec_bf(t: AVLChild) -> int {
    match t {
        None => 0,
        Some(n) => {
            if n.is_nil {
                0
            } else {
                avl_spec_height(n.right_child) - avl_spec_height(n.left_child)
            }
        }
    }
}

/// The AVL shape invariant: every node's balance factor stays within one.
pub open spec fn avl_balanced(t: AVLChild) -> bool
    decreases t,
{
    match t {
        None => true,
        Some(n) => {
            if n.is_nil {
                true
            } else {
                &&& -1 <= avl_spec_bf(t) <= 1
                &&& avl_balanced(n.left_child)
                &&& avl_balanced(n.right_child)
            }
        }
    }
}

/// Whether the subtree's root is a leaf: a real node with both child slots
/// empty, or with both children materialised as nil sentinels.
pub open spec fn avl_is_leaf_spec(t: AVLChild) -> bool {
    match t {
        None => false,
        Some(n) => {
            (n.left_child.is_none() && n.right_child.is_none())
            || (match (n.left_child, n.right_child) {
                (Some(l), Some(r)) => l.is_nil && r.is_nil,
                _ => false,
            })
        }
    }
}

/// Number of leaves: a real leaf node counts one, a nil sentinel counts
/// none.
pub open spec fn avl_spec_leaves(t: AVLChild) -> nat
    decreases t,
{
    match t {
        None => 0,
        Some(n) => {
            if n.is_nil {
                0
            } else if avl_is_leaf_spec(t) {
                1
            } else {
                avl_spec_leaves(n.left_child) + avl_spec_leaves(n.right_child)
            }
        }
    }
}

/// In-order key sequence of the real nodes.
pub open spec fn avl_inorder(t: AVLChild) -> Seq<u64>
    decreases t,
{
    match t {
        None => Seq::empty(),
        Some(n) => {
            if n.is_nil {
                Seq::empty()
            } else {
                avl_inorder(n.left_child) + seq![n.key] + avl_inorder(n.right_child)
            }
        }
    }
}

/// The subtree whose root carries `key`, by binary-search descent.
pub open spec fn avl_find(t: AVLChild, key: u64) -> AVLChild
    decreases t,
{
    match t {
        None => None,
        Some(n) => {
            if key == n.key {
                t
            } else if key < n.key {
                avl_find(n.left_child, key)
            } else {
                avl_find(n.right_child, key)
            }
        }
    }
}

/// Nil-ness of the subtree's root; an absent child reads nil.
pub open spec fn avl_root_nil_spec(t: AVLChild) -> bool {
    match t {
        None => true,
        Some(n) => n.is_nil,
    }
}

/// Key of the subtree's root, if any.
pub open spec fn avl_root_key_opt(t: AVLChild) -> Option<u64> {
    match t {
        None => None,
        Some(n) => Some(n.key),
    }
}

/// Parent back reference of the subtree's root, if any.
pub open spec fn avl_root_parent_spec(t: AVLChild) -> Option<u64> {
    match t {
        None => None,
        Some(n) => n.parent,
    }
}

/// The subtree whose root owns the node carrying `key`; `None` when `key`
/// sits at the root of `t` or is absent.
pub open spec fn avl_parent_spec(t: AVLChild, key: u64) -> AVLChild
    decreases t,
{
    match t {
        None => None,
        Some(n) => {
            if key == n.key {
                None
            } else if key < n.key {
                if avl_root_key_opt(n.left_child) == Some(key) {
                    t
                } else {
                    avl_parent_spec(n.left_child, key)
                }
            } else {
                if avl_root_key_opt(n.right_child) == Some(key) {
                    t
                } else {
                    avl_parent_spec(n.right_child, key)
                }
            }
        }
    }
}

/// The subtree rooted at the leftmost node reached by following left edges
/// until an absent or nil child.
pub open spec fn avl_min_spec(t: AVLChild) -> AVLChild
    decreases t,
{
    match t {
        None => None,
        Some(n) => {
            match n.left_child {
                None => t,
                Some(l) => {
                    if l.is_nil {
                        t
                    } else {
                        avl_min_spec(n.left_child)
                    }
                }
            }
        }
    }
}

/// Every real node has both child slots filled and every nil sentinel is a
/// leaf: the state inside the deletion bracket.
pub open spec fn avl_solid(t: AVLChild) -> bool
    decreases t,
{
    match t {
        None => true,
        Some(n) => {
            if n.is_nil {
                n.left_child.is_none() && n.right_child.is_none()
            } else {
                &&& n.left_child.is_some()
                &&& n.right_child.is_some()
                &&& avl_solid(n.left_child)
                &&& avl_solid(n.right_child)
            }
        }
    }
}

/// The node `new_node` builds: a childless node of cached height 1.
pub open spec fn avl_new_node_spec(key: u64, parent: Option<u64>, is_nil: bool) -> AVLChild {
    Some(Box::new(AVLTreeNode {
        key,
        parent,
        left_child: None,
        right_child: None,
        is_nil,
        height: 1,
    }))
}

/// What holds of a fresh childless node.
pub proof fn avl_lemma_new_node(key: u64, parent: Option<u64>, is_nil: bool)
    ensures
        avl_wf(avl_new_node_spec(key, parent, is_nil)),
        !is_nil ==> avl_as_set(avl_new_node_spec(key, parent, is_nil)) =~= Set::empty().insert(key),
        is_nil ==> avl_as_set(avl_new_node_spec(key, parent, is_nil)) =~= Set::<u64>::empty(),
        avl_no_nil(avl_new_node_spec(key, parent, is_nil)) == !is_nil,
        avl_parents_ok(avl_new_node_spec(key, parent, is_nil), parent),
        avl_children_linked(avl_new_node_spec(key, parent, is_nil)),
        avl_size(avl_new_node_spec(key, parent, is_nil)) == (if is_nil { 0int } else { 1int }),
        avl_spec_height(avl_new_node_spec(key, parent, is_nil)) == (if is_nil { 0int } else { 1int }),
        avl_heights_ok(avl_new_node_spec(key, parent, is_nil)),
        avl_balanced(avl_new_node_spec(key, parent, is_nil)),
        avl_inorder(avl_new_node_spec(key, parent, is_nil)) == (if is_nil { Seq::<u64>::empty() } else { seq![key] }),
        is_nil ==> avl_solid(avl_new_node_spec(key, parent, is_nil)),
{
    reveal_with_fuel(avl_wf, 2);
    reveal_with_fuel(avl_no_nil, 2);
    reveal_with_fuel(avl_solid, 2);
    reveal_with_fuel(avl_parents_ok, 2);
    reveal_with_fuel(avl_size, 2);
    reveal_with_fuel(avl_as_set, 2);
    reveal_with_fuel(avl_spec_height, 2);
    reveal_with_fuel(avl_heights_ok, 2);
    reveal_with_fuel(avl_balanced, 2);
    reveal_with_fuel(avl_inorder, 2);
    if is_nil {
        assert(avl_inorder(avl_new_node_spec(key, parent, is_nil)) =~= Seq::<u64>::empty());
    } else {
        assert(avl_inorder(avl_new_node_spec(key, parent, is_nil)) =~= seq![key]);
    }
}

/// Leaves and height never exceed the node count.
pub proof fn avl_lemma_counts(t: AVLChild)
    ensures
        avl_spec_leaves(t) <= avl_size(t),
        avl_spec_height(t) <= avl_size(t),
    decreases t,
{
    match t {
        None => {}
        Some(n) => {
            avl_lemma_counts(n.left_child);
            avl_lemma_counts(n.right_child);
        }
    }
}

/// Two nodes that differ at most in parent back reference carry the same
/// keys, shape, heights and linkage below themselves.
pub proof fn avl_lemma_root_fields(o: Box<AVLTreeNode>, f: Box<AVLTreeNode>)
    requires
        f.key == o.key,
        f.is_nil == o.is_nil,
        f.height == o.height,
        f.left_child == o.left_child,
        f.right_child == o.right_child,
    ensures
        avl_as_set(Some(f)) == avl_as_set(Some(o)),
        avl_size(Some(f)) == avl_size(Some(o)),
        avl_wf(Some(f)) == avl_wf(Some(o)),
        avl_no_nil(Some(f)) == avl_no_nil(Some(o)),
        avl_spec_height(Some(f)) == avl_spec_height(Some(o)),
        avl_heights_ok(Some(f)) == avl_heights_ok(Some(o)),
        avl_balanced(Some(f)) == avl_balanced(Some(o)),
        avl_inorder(Some(f)) == avl_inorder(Some(o)),
        avl_children_linked(Some(f)) == avl_children_linked(Some(o)),
        avl_solid(Some(f)) == avl_solid(Some(o)),
{
    assert(avl_as_set(Some(f)) == avl_as_set(Some(o)));
    assert(avl_size(Some(f)) == avl_size(Some(o)));
    assert(avl_wf(Some(f)) == avl_wf(Some(o)));
    assert(avl_no_nil(Some(f)) == avl_no_nil(Some(o)));
    assert(avl_spec_height(Some(f)) == avl_spec_height(Some(o)));
    assert(avl_heights_ok(Some(f)) == avl_heights_ok(Some(o)));
    assert(avl_balanced(Some(f)) == avl_balanced(Some(o)));
    assert(avl_inorder(Some(f)) == avl_inorder(Some(o)));
    assert(avl_children_linked(Some(f)) == avl_children_linked(Some(o)));
    assert(avl_solid(Some(f)) == avl_solid(Some(o)));
}

/// On a nil-free well-formed tree, binary-search descent finds exactly the
/// keys of the tree.
pub proof fn avl_lemma_find_set(t: AVLChild, key: u64)
    requires
        avl_wf(t),
        avl_no_nil(t),
    ensures
        avl_find(t, key).is_some() <==> avl_as_set(t).contains(key),
        avl_find(t, key).is_some() ==> avl_find(t, key).unwrap().key == key && !avl_find(t, key).unwrap().is_nil,
    decreases t,
{
    match t {
        None => {}
        Some(n) => {
            avl_lemma_find_set(n.left_child, key);
            avl_lemma_find_set(n.right_child, key);
        }
    }
}

impl AVLTreeNode {
    /// The empty tree.
    pub fn empty() -> (r: AVLChild)
        ensures
            r.is_none(),
    {
        None
    }

    /// A fresh root carrying `key`, with cached height 1.
    pub fn new(key: u64) -> (r: AVLChild)
        ensures
            r == avl_new_node_spec(key, None, false),
            avl_wf(r) && avl_no_nil(r) && avl_parents_ok(r, None) && avl_heights_ok(r),
            avl_as_set(r) =~= Set::empty().insert(key),
            avl_size(r) == 1,
    {
        let r = AVLTreeNode::new_node(key, None, false);
        proof {
            avl_lemma_new_node(key, None, false);
        }
        r
    }

    fn new_node(key: u64, parent: Option<u64>, is_nil: bool) -> (r: AVLChild)
        ensures
            r == avl_new_node_spec(key, parent, is_nil),
    {
        Some(Box::new(AVLTreeNode {
            key,
            parent,
            left_child: None,
            right_child: None,
            is_nil,
            height: 1,
        }))
    }

    fn clone_tree(t: &AVLChild) -> (r: AVLChild)
        ensures
            r == *t,
        decreases t,
    {
        match t {
            None => None,
            Some(n) => Some(Box::new(AVLTreeNode {
                key: n.key,
                parent: n.parent,
                left_child: AVLTreeNode::clone_tree(&n.left_child),
                right_child: AVLTreeNode::clone_tree(&n.right_child),
                is_nil: n.is_nil,
                height: n.height,
            })),
        }
    }

    /// Cached height of the subtree's root; absent and nil children read 0.
    pub fn get_height(root: &AVLChild) -> (r: u128)
        ensures
            r == avl_cached_height(*root),
    {
        if AVLTreeNode::get_root_nil(root) {
            return 0;
        }
        match root {
            Some(n) => n.height,
            None => 0,
        }
    }

    /// Overwrite the root node's cached height.
    pub fn set_height(root: &mut AVLChild, height: u128)
        ensures
            old(root).is_none() ==> final(root).is_none(),
            old(root).is_some() ==> final(root).is_some()
                && final(root).unwrap().height == height
                && final(root).unwrap().key == old(root).unwrap().key
                && final(root).unwrap().parent == old(root).unwrap().parent
                && final(root).unwrap().is_nil == old(root).unwrap().is_nil
                && final(root).unwrap().left_child == old(root).unwrap().left_child
                && final(root).unwrap().right_child == old(root).unwrap().right_child,
    {
        match root.take() {
            Some(mut n) => {
                n.height = height;
                *root = Some(n);
            }
            None => {}
        }
    }

    /// Recompute the root node's cached height from its children's caches.
    pub fn update_height(root: &mut AVLChild)
        requires
            avl_cached_height(avl_left_spec(*old(root))) <= SIZE_CAP,
            avl_cached_height(avl_right_spec(*old(root))) <= SIZE_CAP,
        ensures
            old(root).is_none() ==> final(root).is_none(),
            old(root).is_some() ==> final(root).is_some()
                && final(root).unwrap().height == 1 + (if avl_cached_height(old(root).unwrap().left_child)
                    >= avl_cached_height(old(root).unwrap().right_child)
                    { avl_cached_height(old(root).unwrap().left_child) }
                    else { avl_cached_height(old(root).unwrap().right_child) })
                && final(root).unwrap().key == old(root).unwrap().key
                && final(root).unwrap().parent == old(root).unwrap().parent
                && final(root).unwrap().is_nil == old(root).unwrap().is_nil
                && final(root).unwrap().left_child == old(root).unwrap().left_child
                && final(root).unwrap().right_child == old(root).unwrap().right_child,
    {
        match root.take() {
            Some(mut n) => {
                let lh = AVLTreeNode::get_height(&n.left_child);
                let rh = AVLTreeNode::get_height(&n.right_child);
                n.height = 1 + if lh >= rh { lh } else { rh };
                *root = Some(n);
            }
            None => {}
        }
    }

    /// Balance factor from the cached heights: right minus left.
    pub fn get_balance_factor(root: &AVLChild) -> (r: i64)
        requires
            avl_cached_height(avl_left_spec(*root)) <= SIZE_CAP,
            avl_cached_height(avl_right_spec(*root)) <= SIZE_CAP,
        ensures
            r == (if avl_root_nil_spec(*root) { 0int } else {
                avl_cached_height(avl_right_spec(*root)) - avl_cached_height(avl_left_spec(*root))
            }),
    {
        if AVLTreeNode::get_root_nil(root) {
            return 0;
        }
        match root {
            Some(n) => {
                let lh: i64 = AVLTreeNode::get_height(&n.left_child) as i64;
                let rh: i64 = AVLTreeNode::get_height(&n.right_child) as i64;
                let balance_factor: i64 = rh - lh;
                balance_factor
            }
            None => 0,
        }
    }

    /// Whether the subtree's root is a nil sentinel (an absent child is).
    pub fn get_root_nil(root: &AVLChild) -> (r: bool)
        ensures
            r == avl_root_nil_spec(*root),
    {
        match root {
            Some(n) => n.is_nil,
            None => true,
        }
    }

    /// Key of the subtree's root.
    pub fn get_root_key(root: &AVLChild) -> (r: u64)
        requires
            root.is_some(),
        ensures
            r == root.unwrap().key,
    {
        match root {
            Some(n) => n.key,
            None => 0,
        }
    }

    /// Overwrite the root node's key, re-targeting the children's parent
    /// back references to the new key. Only legal when the caller knows the
    /// order is preserved (the successor swap of delete).
    pub fn set_root_key(root: &mut AVLChild, key: u64)
        requires
            old(root).is_some(),
        ensures
            final(root).is_some(),
            final(root).unwrap().key == key,
            final(root).unwrap().parent == old(root).unwrap().parent,
            final(root).unwrap().is_nil == old(root).unwrap().is_nil,
            final(root).unwrap().height == old(root).unwrap().height,
            avl_as_set(final(root).unwrap().left_child) == avl_as_set(old(root).unwrap().left_child),
            avl_as_set(final(root).unwrap().right_child) == avl_as_set(old(root).unwrap().right_child),
            avl_wf(final(root).unwrap().left_child) == avl_wf(old(root).unwrap().left_child),
            avl_wf(final(root).unwrap().right_child) == avl_wf(old(root).unwrap().right_child),
            avl_children_linked(*old(root)) ==> avl_children_linked(*final(root)),
    {
        let mut n = root.take().unwrap();
        let ghost linked = avl_children_linked(Some(n));
        proof {
            if linked {
                assert(avl_parents_ok(n.left_child, Some(n.key)));
                assert(avl_parents_ok(n.right_child, Some(n.key)));
            }
        }
        n.key = key;
        match n.left_child.take() {
            Some(mut c) => {
                let ghost c0 = c;
                c.parent = Some(key);
                n.left_child = Some(c);
                proof {
                    avl_lemma_root_fields(c0, n.left_child.unwrap());
                }
            }
            None => {}
        }
        match n.right_child.take() {
            Some(mut c) => {
                let ghost c0 = c;
                c.parent = Some(key);
                n.right_child = Some(c);
                proof {
                    avl_lemma_root_fields(c0, n.right_child.unwrap());
                }
            }
            None => {}
        }
        *root = Some(n);
        proof {
            let f = (*root).unwrap();
            if linked {
                assert(avl_parents_ok(f.left_child, Some(f.key)));
                assert(avl_parents_ok(f.right_child, Some(f.key)));
            }
        }
    }

    /// Handle equality: two empty handles are equal, two non-empty handles
    /// are equal exactly when their root keys compare equal.
    pub fn is_node_equal(root1: &AVLChild, root2: &AVLChild) -> (r: bool)
        ensures
            r == (match (*root1, *root2) {
                (None, None) => true,
                (Some(n1), Some(n2)) => n1.key == n2.key,
                _ => false,
            }),
    {
        match (root1, root2) {
            (None, None) => true,
            (Some(n1), Some(n2)) => n1.key == n2.key,
            _ => false,
        }
    }

    /// A detached copy of the parent of the node carrying `key`.
    pub fn get_parent(root: &AVLChild, key: u64) -> (r: AVLChild)
        ensures
            r == avl_parent_spec(*root, key),
        decreases root,
    {
        match root {
            None => None,
            Some(n) => {
                if key == n.key {
                    None
                } else if key < n.key {
                    let hit = match &n.left_child {
                        Some(l) => l.key == key,
                        None => false,
                    };
                    if hit {
                        AVLTreeNode::clone_tree(root)
                    } else {
                        AVLTreeNode::get_parent(&n.left_child, key)
                    }
                } else {
                    let hit = match &n.right_child {
                        Some(l) => l.key == key,
                        None => false,
                    };
                    if hit {
                        AVLTreeNode::clone_tree(root)
                    } else {
                        AVLTreeNode::get_parent(&n.right_child, key)
                    }
                }
            }
        }
    }

    /// A detached copy of the parent of the node carrying `key`.
    pub fn get_parent_by_key(root: &AVLChild, key: u64) -> (r: AVLChild)
        ensures
            r == avl_parent_spec(*root, key),
    {
        AVLTreeNode::get_parent(root, key)
    }

    /// Whether the subtree's root holds no real subtree: both child slots
    /// empty, or both materialised as nil sentinels.
    pub fn is_leaf(root: &AVLChild) -> (r: bool)
        ensures
            r == avl_is_leaf_spec(*root),
    {
        match root {
            Some(n) => {
                let both_empty = n.left_child.is_none() && n.right_child.is_none();
                let both_nil = match (&n.left_child, &n.right_child) {
                    (Some(l), Some(rr)) => l.is_nil && rr.is_nil,
                    _ => false,
                };
                both_empty || both_nil
            }
            None => false,
        }
    }

    /// Rewrite the root node's parent back reference to name the root of
    /// `parent` (or clear it).
    pub fn set_parent(root: &mut AVLChild, parent: &AVLChild)
        ensures
            old(root).is_none() ==> final(root).is_none(),
            old(root).is_some() ==> final(root).is_some()
                && final(root).unwrap().parent == avl_root_key_opt(*parent)
                && final(root).unwrap().key == old(root).unwrap().key
                && final(root).unwrap().height == old(root).unwrap().height
                && final(root).unwrap().is_nil == old(root).unwrap().is_nil
                && final(root).unwrap().left_child == old(root).unwrap().left_child
                && final(root).unwrap().right_child == old(root).unwrap().right_child,
    {
        match root.take() {
            Some(mut n) => {
                n.parent = match parent {
                    Some(p) => Some(p.key),
                    None => None,
                };
                *root = Some(n);
            }
            None => {}
        }
    }

    /// Write `child` into the chosen child slot; does not touch the child's
    /// parent back reference.
    pub fn set_child(root: &mut AVLChild, child: AVLChild, direction: Direction)
        requires
            old(root).is_some(),
        ensures
            final(root).is_some(),
            final(root).unwrap().key == old(root).unwrap().key,
            final(root).unwrap().parent == old(root).unwrap().parent,
            final(root).unwrap().is_nil == old(root).unwrap().is_nil,
            final(root).unwrap().height == old(root).unwrap().height,
            direction == Direction::Left ==> final(root).unwrap().left_child == child
                && final(root).unwrap().right_child == old(root).unwrap().right_child,
            direction == Direction::Right ==> final(root).unwrap().right_child == child
                && final(root).unwrap().left_child == old(root).unwrap().left_child,
    {
        let mut n = root.take().unwrap();
        match direction {
            Direction::Left => { n.left_child = child; }
            Direction::Right => { n.right_child = child; }
        }
        *root = Some(n);
    }

    /// Materialise a nil sentinel in the chosen child slot, carrying the
    /// root's key as a filler and the root as its parent.
    pub fn set_child_nil(root: &mut AVLChild, direction: Direction)
        requires
            old(root).is_some(),
        ensures
            final(root).is_some(),
            final(root).unwrap().key == old(root).unwrap().key,
            final(root).unwrap().parent == old(root).unwrap().parent,
            final(root).unwrap().is_nil == old(root).unwrap().is_nil,
            final(root).unwrap().height == old(root).unwrap().height,
            direction == Direction::Left ==> final(root).unwrap().left_child
                == avl_new_node_spec(old(root).unwrap().key, Some(old(root).unwrap().key), true)
                && final(root).unwrap().right_child == old(root).unwrap().right_child,
            direction == Direction::Right ==> final(root).unwrap().right_child
                == avl_new_node_spec(old(root).unwrap().key, Some(old(root).unwrap().key), true)
                && final(root).unwrap().left_child == old(root).unwrap().left_child,
    {
        let mut n = root.take().unwrap();
        let nil_node = AVLTreeNode::new_node(n.key, Some(n.key), true);
        match direction {
            Direction::Left => { n.left_child = nil_node; }
            Direction::Right => { n.right_child = nil_node; }
        }
        *root = Some(n);
    }

    /// A detached copy of the left child subtree.
    pub fn get_left(root: &AVLChild) -> (r: AVLChild)
        ensures
            r == avl_left_spec(*root),
    {
        match root {
            Some(n) => AVLTreeNode::clone_tree(&n.left_child),
            None => None,
        }
    }

    /// A detached copy of the right child subtree.
    pub fn get_right(root: &AVLChild) -> (r: AVLChild)
        ensures
            r == avl_right_spec(*root),
    {
        match root {
            Some(n) => AVLTreeNode::clone_tree(&n.right_child),
            None => None,
        }
    }

    /// A detached copy of the subtree rooted at the leftmost non-nil node.
    pub fn get_minimum(root: &AVLChild) -> (r: AVLChild)
        requires
            root.is_some(),
        ensures
            r == avl_min_spec(*root),
        decreases root,
    {
        match root {
            None => None,
            Some(n) => {
                match &n.left_child {
                    Some(l) => {
                        if l.is_nil {
                            AVLTreeNode::clone_tree(root)
                        } else {
                            AVLTreeNode::get_minimum(&n.left_child)
                        }
                    }
                    None => AVLTreeNode::clone_tree(root),
                }
            }
        }
    }

    /// Number of leaves of the subtree.
    pub fn count_leaves(root: &AVLChild) -> (r: u128)
        requires
            avl_size(*root) <= SIZE_CAP,
        ensures
            r == avl_spec_leaves(*root),
        decreases root,
    {
        if AVLTreeNode::get_root_nil(root) {
            return 0;
        }
        if AVLTreeNode::is_leaf(root) {
            return 1;
        }
        match root {
            Some(n) => {
                proof {
                    avl_lemma_counts(n.left_child);
                    avl_lemma_counts(n.right_child);
                }
                AVLTreeNode::count_leaves(&n.left_child) + AVLTreeNode::count_leaves(&n.right_child)
            }
            None => 0,
        }
    }

    /// A detached copy of the subtree whose root carries `key`.
    pub fn find_node(root: &AVLChild, key: u64) -> (r: AVLChild)
        ensures
            r == avl_find(*root, key),
        decreases root,
    {
        match root {
            None => None,
            Some(n) => {
                if key == n.key {
                    AVLTreeNode::clone_tree(root)
                } else if key < n.key {
                    AVLTreeNode::find_node(&n.left_child, key)
                } else {
                    AVLTreeNode::find_node(&n.right_child, key)
                }
            }
        }
    }

    /// Whether `key` is held by a real node of the subtree.
    pub fn contains_key(root: &AVLChild, key: u64) -> (r: bool)
        requires
            avl_wf(*root),
            avl_no_nil(*root),
        ensures
            r == avl_as_set(*root).contains(key),
        decreases root,
    {
        match root {
            None => false,
            Some(n) => {
                if key == n.key {
                    true
                } else if key < n.key {
                    proof {
                        assert(!avl_as_set(n.right_child).contains(key));
                    }
                    AVLTreeNode::contains_key(&n.left_child, key)
                } else {
                    proof {
                        assert(!avl_as_set(n.left_child).contains(key));
                    }
                    AVLTreeNode::contains_key(&n.right_child, key)
                }
            }
        }
    }

    /// Materialise a nil sentinel in every empty child slot of the subtree.
    pub fn solidify_all_nil(root: &mut AVLChild)
        requires
            old(root).is_some(),
            avl_wf(*old(root)),
            avl_no_nil(*old(root)),
            avl_children_linked(*old(root)),
        ensures
            *final(root) == avl_solidify_spec(*old(root)),
            final(root).is_some(),
            avl_wf(*final(root)),
            avl_solid(*final(root)),
            avl_children_linked(*final(root)),
            avl_as_set(*final(root)) =~= avl_as_set(*old(root)),
            avl_size(*final(root)) == avl_size(*old(root)),
            avl_heights_ok(*old(root)) ==> avl_heights_ok(*final(root)),
            avl_spec_height(*final(root)) == avl_spec_height(*old(root)),
            avl_balanced(*old(root)) ==> avl_balanced(*final(root)),
            final(root).unwrap().key == old(root).unwrap().key,
            final(root).unwrap().parent == old(root).unwrap().parent,
            final(root).unwrap().is_nil == old(root).unwrap().is_nil,
            final(root).unwrap().height == old(root).unwrap().height,
        decreases *old(root),
    {
        let mut n = root.take().unwrap();
        proof {
            assert(avl_children_linked(n.left_child)) by {
                if n.left_child.is_some() {
                    assert(avl_parents_ok(n.left_child, Some(n.key)));
                }
            }
            assert(avl_children_linked(n.right_child)) by {
                if n.right_child.is_some() {
                    assert(avl_parents_ok(n.right_child, Some(n.key)));
                }
            }
        }
        if n.left_child.is_none() {
            n.left_child = AVLTreeNode::new_node(n.key, Some(n.key), true);
            proof {
                avl_lemma_new_node(n.key, Some(n.key), true);
            }
        } else {
            AVLTreeNode::solidify_all_nil(&mut n.left_child);
        }
        if n.right_child.is_none() {
            n.right_child = AVLTreeNode::new_node(n.key, Some(n.key), true);
            proof {
                avl_lemma_new_node(n.key, Some(n.key), true);
            }
        } else {
            AVLTreeNode::solidify_all_nil(&mut n.right_child);
        }
        proof {
            assert(avl_parents_ok(n.left_child, Some(n.key)));
            assert(avl_parents_ok(n.right_child, Some(n.key)));
            let o = old(root).unwrap();
            assert(avl_as_set(None::<Box<AVLTreeNode>>) =~= Set::<u64>::empty());
            assert(avl_size(None::<Box<AVLTreeNode>>) == 0);
            assert(avl_spec_height(None::<Box<AVLTreeNode>>) == 0);
            assert(avl_as_set(n.left_child) == avl_as_set(o.left_child));
            assert(avl_as_set(n.right_child) == avl_as_set(o.right_child));
            assert(avl_size(n.left_child) == avl_size(o.left_child));
            assert(avl_size(n.right_child) == avl_size(o.right_child));
            assert(avl_spec_height(n.left_child) == avl_spec_height(o.left_child));
            assert(avl_spec_height(n.right_child) == avl_spec_height(o.right_child));
            assert(avl_as_set(Some(n)) =~= avl_as_set(*old(root)));
            assert(avl_size(Some(n)) == avl_size(*old(root)));
            assert(avl_spec_height(Some(n)) == avl_spec_height(*old(root)));
            if avl_heights_ok(*old(root)) {
                assert(avl_heights_ok(Some(n)));
            }
            if avl_balanced(*old(root)) {
                assert(avl_balanced(n.left_child) == avl_balanced(o.left_child));
                assert(avl_balanced(n.right_child) == avl_balanced(o.right_child));
                assert(avl_balanced(Some(n)));
            }
        }
        *root = Some(n);
    }

    /// Replace every nil-flagged child with an empty slot again.
    pub fn virtualize_all_nil(root: &mut AVLChild)
        requires
            old(root).is_some(),
            avl_wf(*old(root)),
            !old(root).unwrap().is_nil,
        ensures
            *final(root) == avl_virtualize_spec(*old(root)),
            final(root).is_some(),
            avl_wf(*final(root)),
            avl_no_nil(*final(root)),
            avl_as_set(*final(root)) =~= avl_as_set(*old(root)),
            avl_size(*final(root)) == avl_size(*old(root)),
            avl_heights_ok(*old(root)) ==> avl_heights_ok(*final(root)),
            avl_spec_height(*final(root)) == avl_spec_height(*old(root)),
            avl_balanced(*old(root)) ==> avl_balanced(*final(root)),
            final(root).unwrap().key == old(root).unwrap().key,
            final(root).unwrap().parent == old(root).unwrap().parent,
            final(root).unwrap().is_nil == old(root).unwrap().is_nil,
            final(root).unwrap().height == old(root).unwrap().height,
            avl_children_linked(*old(root)) ==> avl_children_linked(*final(root)),
        decreases *old(root),
    {
        let mut n = root.take().unwrap();
        let ghost linked = avl_children_linked(Some(n));
        proof {
            if linked {
                assert(avl_parents_ok(n.left_child, Some(n.key)));
                assert(avl_parents_ok(n.right_child, Some(n.key)));
            }
        }
        let left_nil = AVLTreeNode::get_root_nil(&n.left_child);
        if left_nil {
            n.left_child = None;
        } else {
            AVLTreeNode::virtualize_all_nil(&mut n.left_child);
        }
        let right_nil = AVLTreeNode::get_root_nil(&n.right_child);
        if right_nil {
            n.right_child = None;
        } else {
            AVLTreeNode::virtualize_all_nil(&mut n.right_child);
        }
        proof {
            if linked {
                assert(avl_parents_ok(n.left_child, Some(n.key)));
                assert(avl_parents_ok(n.right_child, Some(n.key)));
            }
            assert(avl_no_nil(None::<Box<AVLTreeNode>>));
            assert(avl_wf(None::<Box<AVLTreeNode>>));
            assert(avl_size(None::<Box<AVLTreeNode>>) == 0);
            assert(avl_spec_height(None::<Box<AVLTreeNode>>) == 0);
            let o = old(root).unwrap();
            assert(avl_as_set(n.left_child) == avl_as_set(o.left_child));
            assert(avl_as_set(n.right_child) == avl_as_set(o.right_child));
            assert(avl_size(n.left_child) == avl_size(o.left_child));
            assert(avl_size(n.right_child) == avl_size(o.right_child));
            assert(avl_spec_height(n.left_child) == avl_spec_height(o.left_child));
            assert(avl_spec_height(n.right_child) == avl_spec_height(o.right_child));
            assert(avl_no_nil(Some(n)));
            assert(avl_wf(Some(n)));
            assert(avl_spec_height(Some(n)) == avl_spec_height(*old(root)));
            if avl_heights_ok(*old(root)) {
                assert(avl_heights_ok(o.left_child) && avl_heights_ok(o.right_child));
                assert(avl_heights_ok(None::<Box<AVLTreeNode>>));
                assert(avl_heights_ok(n.left_child) && avl_heights_ok(n.right_child));
                assert(o.height == avl_spec_height(*old(root)));
                assert(avl_heights_ok(Some(n)));
            }
            if avl_balanced(*old(root)) {
                assert(avl_balanced(n.left_child) == avl_balanced(o.left_child));
                assert(avl_balanced(n.right_child) == avl_balanced(o.right_child));
                assert(avl_balanced(Some(n)));
            }
        }
        *root = Some(n);
    }

    /// Insert a fresh leaf carrying `key` by binary-search descent, without
    /// rebalancing; a no-op when `key` is already present or the subtree is
    /// empty.
    pub fn insert_node(root: &mut AVLChild, key: u64)
        requires
            avl_wf(*old(root)),
            avl_no_nil(*old(root)),
            avl_size(*old(root)) < SIZE_CAP,
        ensures
            *final(root) == avl_insert_spec(*old(root), key),
            avl_wf(*final(root)),
            avl_no_nil(*final(root)),
            old(root).is_none() ==> final(root).is_none(),
            old(root).is_some() ==> final(root).is_some()
                && (avl_as_set(*final(root)) =~= avl_as_set(*old(root)).insert(key))
                && final(root).unwrap().key == old(root).unwrap().key
                && final(root).unwrap().parent == old(root).unwrap().parent
                && (avl_children_linked(*old(root)) ==> avl_children_linked(*final(root))),
            avl_size(*final(root)) <= avl_size(*old(root)) + 1,
            avl_as_set(*old(root)).contains(key) ==> *final(root) == *old(root),
    {
        if root.is_some() {
            AVLTreeNode::insert_rec(root, key);
        }
    }

    fn insert_rec(root: &mut AVLChild, key: u64)
        requires
            old(root).is_some(),
            avl_wf(*old(root)),
            avl_no_nil(*old(root)),
        ensures
            *final(root) == avl_insert_spec(*old(root), key),
            final(root).is_some(),
            avl_wf(*final(root)),
            avl_no_nil(*final(root)),
            avl_as_set(*final(root)) =~= avl_as_set(*old(root)).insert(key),
            final(root).unwrap().key == old(root).unwrap().key,
            final(root).unwrap().parent == old(root).unwrap().parent,
            avl_children_linked(*old(root)) ==> avl_children_linked(*final(root)),
            avl_size(*final(root)) <= avl_size(*old(root)) + 1,
            avl_as_set(*old(root)).contains(key) ==> *final(root) == *old(root),
        decreases *old(root),
    {
        let mut n = root.take().unwrap();
        if key == n.key {
        } else if key < n.key {
            proof {
                assert(!avl_as_set(n.right_child).contains(key));
                if avl_as_set(*old(root)).contains(key) {
                    assert(avl_as_set(n.left_child).contains(key));
                }
            }
            if n.left_child.is_some() {
                AVLTreeNode::insert_rec(&mut n.left_child, key);
            } else {
                n.left_child = AVLTreeNode::new_node(key, Some(n.key), false);
                proof {
                    avl_lemma_new_node(key, Some(n.key), false);
                }
            }
        } else {
            proof {
                assert(!avl_as_set(n.left_child).contains(key));
                if avl_as_set(*old(root)).contains(key) {
                    assert(avl_as_set(n.right_child).contains(key));
                }
            }
            if n.right_child.is_some() {
                AVLTreeNode::insert_rec(&mut n.right_child, key);
            } else {
                n.right_child = AVLTreeNode::new_node(key, Some(n.key), false);
                proof {
                    avl_lemma_new_node(key, Some(n.key), false);
                }
            }
        }
        *root = Some(n);
    }
}

/// Whether a left rotation at the subtree's root has a real pivot: the
/// root and its right child both exist and the child is not nil.
pub open spec fn rot_left_usable(t: AVLChild) -> bool {
    match t {
        None => false,
        Some(n) => {
            match n.right_child {
                None => false,
                Some(y) => !y.is_nil,
            }
        }
    }
}

/// Mirror image of `rot_left_usable`.
pub open spec fn rot_right_usable(t: AVLChild) -> bool {
    match t {
        None => false,
        Some(n) => {
            match n.left_child {
                None => false,
                Some(y) => !y.is_nil,
            }
        }
    }
}

/// The left rotation pivoting the root of `t` and its right child `y`: `y`
/// takes the root's position, the root becomes `y`'s left child, `y`'s old
/// left subtree becomes the root's right subtree, every moved back
/// reference is re-targeted, and the two moved nodes' cached heights are
/// recomputed (lowered node first). When the pivot is absent or nil only
/// the root's cached height is refreshed.
pub open spec fn avl_rotate_left_here(t: AVLChild) -> AVLChild {
    match t {
        None => t,
        Some(n) => {
            if !rot_left_usable(t) {
                if n.is_nil {
                    t
                } else {
                    Some(Box::new(AVLTreeNode {
                        key: n.key,
                        parent: n.parent,
                        left_child: n.left_child,
                        right_child: n.right_child,
                        is_nil: n.is_nil,
                        height: (1 + (if avl_cached_height(n.left_child) >= avl_cached_height(n.right_child)
                            { avl_cached_height(n.left_child) } else { avl_cached_height(n.right_child) })) as u128,
                    }))
                }
            } else {
                let y = n.right_child.unwrap();
                let moved = (match y.left_child {
                    None => None,
                    Some(b) => Some(Box::new(AVLTreeNode {
                        key: b.key,
                        parent: Some(n.key),
                        left_child: b.left_child,
                        right_child: b.right_child,
                        is_nil: b.is_nil,
                        height: b.height,
                    })),
                });
                let lowered = Some(Box::new(AVLTreeNode {
                    key: n.key,
                    parent: Some(y.key),
                    left_child: n.left_child,
                    right_child: moved,
                    is_nil: n.is_nil,
                    height: (1 + (if avl_cached_height(n.left_child) >= avl_cached_height(moved)
                        { avl_cached_height(n.left_child) } else { avl_cached_height(moved) })) as u128,
                }));
                Some(Box::new(AVLTreeNode {
                    key: y.key,
                    parent: n.parent,
                    left_child: lowered,
                    right_child: y.right_child,
                    is_nil: y.is_nil,
                    height: (1 + (if avl_cached_height(lowered) >= avl_cached_height(y.right_child)
                        { avl_cached_height(lowered) } else { avl_cached_height(y.right_child) })) as u128,
                }))
            }
        }
    }
}

/// Mirror image of `avl_rotate_left_here`.
pub open spec fn avl_rotate_right_here(t: AVLChild) -> AVLChild {
    match t {
        None => t,
        Some(n) => {
            if !rot_right_usable(t) {
                if n.is_nil {
                    t
                } else {
                    Some(Box::new(AVLTreeNode {
                        key: n.key,
                        parent: n.parent,
                        left_child: n.left_child,
                        right_child: n.right_child,
                        is_nil: n.is_nil,
                        height: (1 + (if avl_cached_height(n.left_child) >= avl_cached_height(n.right_child)
                            { avl_cached_height(n.left_child) } else { avl_cached_height(n.right_child) })) as u128,
                    }))
                }
            } else {
                let y = n.left_child.unwrap();
                let moved = (match y.right_child {
                    None => None,
                    Some(b) => Some(Box::new(AVLTreeNode {
                        key: b.key,
                        parent: Some(n.key),
                        left_child: b.left_child,
                        right_child: b.right_child,
                        is_nil: b.is_nil,
                        height: b.height,
                    })),
                });
                let lowered = Some(Box::new(AVLTreeNode {
                    key: n.key,
                    parent: Some(y.key),
                    left_child: moved,
                    right_child: n.right_child,
                    is_nil: n.is_nil,
                    height: (1 + (if avl_cached_height(moved) >= avl_cached_height(n.right_child)
                        { avl_cached_height(moved) } else { avl_cached_height(n.right_child) })) as u128,
                }));
                Some(Box::new(AVLTreeNode {
                    key: y.key,
                    parent: n.parent,
                    left_child: y.left_child,
                    right_child: lowered,
                    is_nil: y.is_nil,
                    height: (1 + (if avl_cached_height(y.left_child) >= avl_cached_height(lowered)
                        { avl_cached_height(y.left_child) } else { avl_cached_height(lowered) })) as u128,
                }))
            }
        }
    }
}

/// The whole-tree effect of a rotation around the node carrying `key`: the
/// binary-search descent reaches that node and the local rotation is
/// applied in place; anything else is untouched.
pub open spec fn avl_rotate_spec(t: AVLChild, key: u64, dir: Direction) -> AVLChild
    decreases t,
{
    match t {
        None => t,
        Some(n) => {
            if key == n.key {
                match dir {
                    Direction::Left => avl_rotate_left_here(t),
                    Direction::Right => avl_rotate_right_here(t),
                }
            } else if key < n.key {
                if n.left_child.is_some() {
                    Some(Box::new(AVLTreeNode {
                        key: n.key,
                        parent: n.parent,
                        left_child: avl_rotate_spec(n.left_child, key, dir),
                        right_child: n.right_child,
                        is_nil: n.is_nil,
                        height: n.height,
                    }))
                } else {
                    t
                }
            } else {
                if n.right_child.is_some() {
                    Some(Box::new(AVLTreeNode {
                        key: n.key,
                        parent: n.parent,
                        left_child: n.left_child,
                        right_child: avl_rotate_spec(n.right_child, key, dir),
                        is_nil: n.is_nil,
                        height: n.height,
                    }))
                } else {
                    t
                }
            }
        }
    }
}

/// The larger of two heights.
pub open spec fn h_max(a: nat, b: nat) -> nat {
    if a >= b {
        a
    } else {
        b
    }
}

/// Binary-search-descent insertion of a fresh childless leaf of cached
/// height 1 carrying `key`, its back reference naming the node it hangs
/// from; the tree is untouched when `key` is already present or the tree is
/// empty.
pub open spec fn avl_insert_spec(t: AVLChild, key: u64) -> AVLChild
    decreases t,
{
    match t {
        None => t,
        Some(n) => {
            if key == n.key {
                t
            } else if key < n.key {
                Some(Box::new(AVLTreeNode {
                    key: n.key,
                    parent: n.parent,
                    left_child: (if n.left_child.is_some() {
                        avl_insert_spec(n.left_child, key)
                    } else {
                        avl_new_node_spec(key, Some(n.key), false)
                    }),
                    right_child: n.right_child,
                    is_nil: n.is_nil,
                    height: n.height,
                }))
            } else {
                Some(Box::new(AVLTreeNode {
                    key: n.key,
                    parent: n.parent,
                    left_child: n.left_child,
                    right_child: (if n.right_child.is_some() {
                        avl_insert_spec(n.right_child, key)
                    } else {
                        avl_new_node_spec(key, Some(n.key), false)
                    }),
                    is_nil: n.is_nil,
                    height: n.height,
                }))
            }
        }
    }
}

/// The transplant of the subtree rooted at the node carrying `vk` (which
/// lies within the subtree rooted at the node carrying `uk`; `None` clears
/// the slot) into `uk`'s position: `uk`'s old slot now holds `vk`'s
/// subtree, whose root's back reference is re-targeted to `uk`'s old
/// parent; the rest of the tree is untouched and the displaced remainder is
/// dropped.
pub open spec fn avl_transplant_spec(t: AVLChild, uk: u64, vk: Option<u64>) -> AVLChild
    decreases t,
{
    match t {
        None => t,
        Some(n) => {
            if uk == n.key {
                match vk {
                    None => None,
                    Some(v) => {
                        match avl_find(t, v) {
                            None => None,
                            Some(vb) => Some(Box::new(AVLTreeNode {
                                key: vb.key,
                                parent: n.parent,
                                left_child: vb.left_child,
                                right_child: vb.right_child,
                                is_nil: vb.is_nil,
                                height: vb.height,
                            })),
                        }
                    }
                }
            } else if uk < n.key {
                if n.left_child.is_some() {
                    Some(Box::new(AVLTreeNode {
                        key: n.key,
                        parent: n.parent,
                        left_child: avl_transplant_spec(n.left_child, uk, vk),
                        right_child: n.right_child,
                        is_nil: n.is_nil,
                        height: n.height,
                    }))
                } else {
                    t
                }
            } else {
                if n.right_child.is_some() {
                    Some(Box::new(AVLTreeNode {
                        key: n.key,
                        parent: n.parent,
                        left_child: n.left_child,
                        right_child: avl_transplant_spec(n.right_child, uk, vk),
                        is_nil: n.is_nil,
                        height: n.height,
                    }))
                } else {
                    t
                }
            }
        }
    }
}

/// Every empty child slot of the tree materialised as a nil sentinel that
/// carries its owner's key as a filler and names it as parent.
pub open spec fn avl_solidify_spec(t: AVLChild) -> AVLChild
    decreases t,
{
    match t {
        None => t,
        Some(n) => Some(Box::new(AVLTreeNode {
            key: n.key,
            parent: n.parent,
            left_child: (if n.left_child.is_none() {
                avl_new_node_spec(n.key, Some(n.key), true)
            } else {
                avl_solidify_spec(n.left_child)
            }),
            right_child: (if n.right_child.is_none() {
                avl_new_node_spec(n.key, Some(n.key), true)
            } else {
                avl_solidify_spec(n.right_child)
            }),
            is_nil: n.is_nil,
            height: n.height,
        })),
    }
}

/// Every nil-flagged child replaced with an empty slot again.
pub open spec fn avl_virtualize_spec(t: AVLChild) -> AVLChild
    decreases t,
{
    match t {
        None => t,
        Some(n) => Some(Box::new(AVLTreeNode {
            key: n.key,
            parent: n.parent,
            left_child: (if avl_root_nil_spec(n.left_child) {
                None
            } else {
                avl_virtualize_spec(n.left_child)
            }),
            right_child: (if avl_root_nil_spec(n.right_child) {
                None
            } else {
                avl_virtualize_spec(n.right_child)
            }),
            is_nil: n.is_nil,
            height: n.height,
        })),
    }
}

/// De-materialising the sentinels undoes materialising them: the deletion
/// bracket is invisible from outside.
pub proof fn avl_lemma_bracket_identity(t: AVLChild)
    requires
        avl_no_nil(t),
    ensures
        avl_virtualize_spec(avl_solidify_spec(t)) == t,
    decreases t,
{
    match t {
        None => {}
        Some(n) => {
            assert(!n.is_nil && avl_no_nil(n.left_child) && avl_no_nil(n.right_child));
            avl_lemma_bracket_identity(n.left_child);
            avl_lemma_bracket_identity(n.right_child);
            assert(avl_root_nil_spec(avl_new_node_spec(n.key, Some(n.key), true)));
            if n.left_child.is_some() {
                assert(!avl_root_nil_spec(avl_solidify_spec(n.left_child)));
            }
            if n.right_child.is_some() {
                assert(!avl_root_nil_spec(avl_solidify_spec(n.right_child)));
            }
            assert(avl_virtualize_spec(avl_solidify_spec(t)) == t);
        }
    }
}

/// The local repair of one node: refresh its cached height from the
/// children's caches and, at a two-level lean, apply the matching entry of
/// the LL/LR/RR/RL rotation table.
pub open spec fn avl_fix_node_spec(t: AVLChild) -> AVLChild {
    match t {
        None => t,
        Some(n) => {
            let lh = avl_cached_height(n.left_child);
            let rh = avl_cached_height(n.right_child);
            if lh >= rh + 2 {
                let inner = (match n.left_child {
                    Some(l) => (avl_cached_height(l.left_child), avl_cached_height(l.right_child)),
                    None => (0u128, 0u128),
                });
                if inner.1 > inner.0 {
                    avl_rotate_right_here(Some(Box::new(AVLTreeNode {
                        key: n.key,
                        parent: n.parent,
                        left_child: (if n.left_child.is_some() {
                            avl_rotate_left_here(n.left_child)
                        } else {
                            n.left_child
                        }),
                        right_child: n.right_child,
                        is_nil: n.is_nil,
                        height: n.height,
                    })))
                } else {
                    avl_rotate_right_here(t)
                }
            } else if rh >= lh + 2 {
                let inner = (match n.right_child {
                    Some(r) => (avl_cached_height(r.left_child), avl_cached_height(r.right_child)),
                    None => (0u128, 0u128),
                });
                if inner.0 > inner.1 {
                    avl_rotate_left_here(Some(Box::new(AVLTreeNode {
                        key: n.key,
                        parent: n.parent,
                        left_child: n.left_child,
                        right_child: (if n.right_child.is_some() {
                            avl_rotate_right_here(n.right_child)
                        } else {
                            n.right_child
                        }),
                        is_nil: n.is_nil,
                        height: n.height,
                    })))
                } else {
                    avl_rotate_left_here(t)
                }
            } else {
                Some(Box::new(AVLTreeNode {
                    key: n.key,
                    parent: n.parent,
                    left_child: n.left_child,
                    right_child: n.right_child,
                    is_nil: n.is_nil,
                    height: (1 + (if lh >= rh { lh } else { rh })) as u128,
                }))
            }
        }
    }
}

/// Binary-search-descent insertion of a fresh leaf carrying `key` with the
/// local repair applied to every node on the way back up; the insertion is
/// skipped when `key` is already present, but the repair walk still
/// refreshes the path.
pub open spec fn avl_insert_bal_spec(t: AVLChild, key: u64) -> AVLChild
    decreases t,
{
    match t {
        None => t,
        Some(n) => {
            let grown = (if key == n.key {
                t
            } else if key < n.key {
                Some(Box::new(AVLTreeNode {
                    key: n.key,
                    parent: n.parent,
                    left_child: (if n.left_child.is_some() {
                        avl_insert_bal_spec(n.left_child, key)
                    } else {
                        avl_new_node_spec(key, Some(n.key), false)
                    }),
                    right_child: n.right_child,
                    is_nil: n.is_nil,
                    height: n.height,
                }))
            } else {
                Some(Box::new(AVLTreeNode {
                    key: n.key,
                    parent: n.parent,
                    left_child: n.left_child,
                    right_child: (if n.right_child.is_some() {
                        avl_insert_bal_spec(n.right_child, key)
                    } else {
                        avl_new_node_spec(key, Some(n.key), false)
                    }),
                    is_nil: n.is_nil,
                    height: n.height,
                }))
            });
            avl_fix_node_spec(grown)
        }
    }
}

/// The removal of the leftmost real node of `t`, with the local repair
/// applied to every walked node on the way back up: the node is replaced
/// by its right child, re-targeted to the removed node's parent. Returns
/// the changed tree and the removed key.
pub open spec fn avl_extract_min_spec(t: AVLChild) -> (AVLChild, u64)
    decreases t,
{
    match t {
        None => (t, 0),
        Some(n) => {
            let left_real = (match n.left_child {
                Some(l) => !l.is_nil,
                None => false,
            });
            if left_real {
                let rec = avl_extract_min_spec(n.left_child);
                (avl_fix_node_spec(Some(Box::new(AVLTreeNode {
                    key: n.key,
                    parent: n.parent,
                    left_child: rec.0,
                    right_child: n.right_child,
                    is_nil: n.is_nil,
                    height: n.height,
                }))), rec.1)
            } else {
                ((match n.right_child {
                    None => None,
                    Some(c) => Some(Box::new(AVLTreeNode {
                        key: c.key,
                        parent: n.parent,
                        left_child: c.left_child,
                        right_child: c.right_child,
                        is_nil: c.is_nil,
                        height: c.height,
                    })),
                }), n.key)
            }
        }
    }
}

/// The structural removal of the node carrying `key` with the local repair
/// applied to every walked node on the way back up: a node with an absent
/// or nil child is replaced by its other child, a node with two real
/// children takes its in-order successor's key (children re-targeted) and
/// the successor's node is removed instead.
pub open spec fn avl_remove_key_spec(t: AVLChild, key: u64) -> AVLChild
    decreases t,
{
    match t {
        None => t,
        Some(n) => {
            if key < n.key {
                if n.left_child.is_some() {
                    avl_fix_node_spec(Some(Box::new(AVLTreeNode {
                        key: n.key,
                        parent: n.parent,
                        left_child: avl_remove_key_spec(n.left_child, key),
                        right_child: n.right_child,
                        is_nil: n.is_nil,
                        height: n.height,
                    })))
                } else {
                    t
                }
            } else if key > n.key {
                if n.right_child.is_some() {
                    avl_fix_node_spec(Some(Box::new(AVLTreeNode {
                        key: n.key,
                        parent: n.parent,
                        left_child: n.left_child,
                        right_child: avl_remove_key_spec(n.right_child, key),
                        is_nil: n.is_nil,
                        height: n.height,
                    })))
                } else {
                    t
                }
            } else {
                if avl_root_nil_spec(n.left_child) {
                    match n.right_child {
                        None => None,
                        Some(c) => Some(Box::new(AVLTreeNode {
                            key: c.key,
                            parent: n.parent,
                            left_child: c.left_child,
                            right_child: c.right_child,
                            is_nil: c.is_nil,
                            height: c.height,
                        })),
                    }
                } else if avl_root_nil_spec(n.right_child) {
                    match n.left_child {
                        None => None,
                        Some(c) => Some(Box::new(AVLTreeNode {
                            key: c.key,
                            parent: n.parent,
                            left_child: c.left_child,
                            right_child: c.right_child,
                            is_nil: c.is_nil,
                            height: c.height,
                        })),
                    }
                } else {
                    let er = avl_extract_min_spec(n.right_child);
                    avl_fix_node_spec(Some(Box::new(AVLTreeNode {
                        key: er.1,
                        parent: n.parent,
                        left_child: (match n.left_child {
                            None => None,
                            Some(c) => Some(Box::new(AVLTreeNode {
                                key: c.key,
                                parent: Some(er.1),
                                left_child: c.left_child,
                                right_child: c.right_child,
                                is_nil: c.is_nil,
                                height: c.height,
                            })),
                        }),
                        right_child: (match er.0 {
                            None => None,
                            Some(c) => Some(Box::new(AVLTreeNode {
                                key: c.key,
                                parent: Some(er.1),
                                left_child: c.left_child,
                                right_child: c.right_child,
                                is_nil: c.is_nil,
                                height: c.height,
                            })),
                        }),
                        is_nil: n.is_nil,
                        height: n.height,
                    })))
                }
            }
        }
    }
}

/// The whole deletion of a present key: the sole-node case clears the
/// tree; otherwise the nil-sentinel bracket is materialised, the node is
/// structurally removed with the repair walk run on the way back up, and
/// the bracket is torn down.
pub open spec fn avl_delete_spec(t: AVLChild, key: u64) -> AVLChild {
    match t {
        None => t,
        Some(n) => {
            if n.key == key && avl_is_leaf_spec(t) {
                None
            } else {
                let removed = avl_remove_key_spec(avl_solidify_spec(t), key);
                if avl_root_nil_spec(removed) {
                    None
                } else {
                    avl_virtualize_spec(removed)
                }
            }
        }
    }
}

/// Cached heights within `t` are correct except possibly on the descent
/// path of `key`, whose nodes may hold stale caches (their off-path
/// children are still correct).
pub open spec fn avl_heights_ok_except(t: AVLChild, key: u64) -> bool
    decreases t,
{
    match t {
        None => true,
        Some(n) => {
            if n.is_nil {
                true
            } else if key < n.key {
                avl_heights_ok(n.right_child) && avl_heights_ok_except(n.left_child, key)
            } else if key > n.key {
                avl_heights_ok(n.left_child) && avl_heights_ok_except(n.right_child, key)
            } else {
                avl_heights_ok(n.left_child) && avl_heights_ok(n.right_child)
            }
        }
    }
}

/// A fully correct cache is in particular correct off any path: this
/// discharges the cache precondition of the delete fix-up walk for a caller
/// whose tree has no stale cache at all.
pub proof fn avl_lemma_ok_implies_except(t: AVLChild, key: u64)
    requires
        avl_heights_ok(t),
    ensures
        avl_heights_ok_except(t, key),
    decreases t,
{
    match t {
        None => {}
        Some(n) => {
            if !n.is_nil {
                if key < n.key {
                    avl_lemma_ok_implies_except(n.left_child, key);
                } else if key > n.key {
                    avl_lemma_ok_implies_except(n.right_child, key);
                }
            }
        }
    }
}

/// The state the delete fix-up walk repairs: every subtree hanging off the
/// search path of `key` is balanced, nodes on the path may lean as far as a
/// balance factor of two, and a node leaning that far has both children
/// balanced (a removal shrinks a subtree by at most one level, so at most
/// one path node leans by two and nothing below it does).
pub open spec fn avl_balanced_except(t: AVLChild, key: u64) -> bool
    decreases t,
{
    match t {
        None => true,
        Some(n) => {
            if n.is_nil {
                true
            } else if key < n.key {
                &&& avl_balanced(n.right_child)
                &&& avl_balanced_except(n.left_child, key)
                &&& -2 <= avl_spec_bf(t) <= 2
                &&& ((avl_spec_bf(t) == 2 || avl_spec_bf(t) == -2) ==> avl_balanced(n.left_child))
            } else if key > n.key {
                &&& avl_balanced(n.left_child)
                &&& avl_balanced_except(n.right_child, key)
                &&& -2 <= avl_spec_bf(t) <= 2
                &&& ((avl_spec_bf(t) == 2 || avl_spec_bf(t) == -2) ==> avl_balanced(n.right_child))
            } else {
                &&& avl_balanced(n.left_child)
                &&& avl_balanced(n.right_child)
                &&& -2 <= avl_spec_bf(t) <= 2
            }
        }
    }
}

/// A balanced tree is in particular in the walk's repairable state.
pub proof fn avl_lemma_balanced_implies_except(t: AVLChild, key: u64)
    requires
        avl_balanced(t),
    ensures
        avl_balanced_except(t, key),
    decreases t,
{
    match t {
        None => {}
        Some(n) => {
            if !n.is_nil {
                if key < n.key {
                    avl_lemma_balanced_implies_except(n.left_child, key);
                } else if key > n.key {
                    avl_lemma_balanced_implies_except(n.right_child, key);
                }
            }
        }
    }
}

/// A correct cache answers the true height.
pub proof fn avl_lemma_cached(t: AVLChild)
    requires
        avl_heights_ok(t),
    ensures
        avl_cached_height(t) == avl_spec_height(t),
{
}

impl AVLTreeNode {
    /// Rotation pivoting the root and its right child, recomputing the two
    /// moved nodes' cached heights (in the no-op case, the root's). A no-op
    /// when the right child is absent or nil.
    fn rotate_left_local(node: &mut AVLChild)
        requires
            old(node).is_some(),
            avl_wf(*old(node)),
            avl_heights_ok(avl_left_spec(*old(node))),
            avl_heights_ok(avl_right_spec(*old(node))),
            avl_size(*old(node)) <= SIZE_CAP,
        ensures
            *final(node) == avl_rotate_left_here(*old(node)),
            final(node).is_some(),
            avl_wf(*final(node)),
            avl_heights_ok(*final(node)),
            avl_as_set(*final(node)) =~= avl_as_set(*old(node)),
            avl_size(*final(node)) == avl_size(*old(node)),
            avl_no_nil(*old(node)) ==> avl_no_nil(*final(node)),
            avl_children_linked(*old(node)) ==> avl_children_linked(*final(node)),
            avl_root_parent_spec(*final(node)) == avl_root_parent_spec(*old(node)),
            !rot_left_usable(*old(node)) ==> avl_spec_height(*final(node)) == avl_spec_height(*old(node))
                && (avl_balanced(*old(node)) ==> avl_balanced(*final(node))),
            rot_left_usable(*old(node)) ==> avl_spec_height(*final(node))
                == 1 + h_max(1 + h_max(
                        avl_spec_height(avl_left_spec(*old(node))),
                        avl_spec_height(avl_left_spec(avl_right_spec(*old(node))))),
                    avl_spec_height(avl_right_spec(avl_right_spec(*old(node))))),
            (rot_left_usable(*old(node))
                && avl_balanced(avl_left_spec(*old(node)))
                && avl_balanced(avl_left_spec(avl_right_spec(*old(node))))
                && avl_balanced(avl_right_spec(avl_right_spec(*old(node))))
                && -1 <= avl_spec_height(avl_left_spec(avl_right_spec(*old(node))))
                    - avl_spec_height(avl_left_spec(*old(node))) <= 1
                && -1 <= avl_spec_height(avl_right_spec(avl_right_spec(*old(node))))
                    - (1 + h_max(avl_spec_height(avl_left_spec(*old(node))),
                        avl_spec_height(avl_left_spec(avl_right_spec(*old(node)))))) <= 1)
                ==> avl_balanced(*final(node)),
            rot_left_usable(*old(node)) ==> ({
                &&& avl_right_spec(*final(node)) == avl_right_spec(avl_right_spec(*old(node)))
                &&& avl_left_spec(avl_left_spec(*final(node))) == avl_left_spec(*old(node))
                &&& avl_spec_height(avl_right_spec(avl_left_spec(*final(node))))
                    == avl_spec_height(avl_left_spec(avl_right_spec(*old(node))))
                &&& (avl_balanced(avl_left_spec(avl_right_spec(*old(node))))
                    ==> avl_balanced(avl_right_spec(avl_left_spec(*final(node)))))
                &&& avl_spec_height(avl_left_spec(*final(node)))
                    == 1 + h_max(avl_spec_height(avl_left_spec(*old(node))),
                        avl_spec_height(avl_left_spec(avl_right_spec(*old(node)))))
                &&& ((avl_balanced(avl_left_spec(*old(node)))
                        && avl_balanced(avl_left_spec(avl_right_spec(*old(node))))
                        && -1 <= avl_spec_height(avl_left_spec(avl_right_spec(*old(node))))
                            - avl_spec_height(avl_left_spec(*old(node))) <= 1)
                    ==> avl_balanced(avl_left_spec(*final(node))))
            }),
        decreases *old(node),
    {
        let mut n = node.take().unwrap();
        let ghost n0 = n;
        proof {
            avl_lemma_counts(n0.left_child);
            avl_lemma_counts(n0.right_child);
            avl_lemma_cached(n0.left_child);
            avl_lemma_cached(n0.right_child);
        }
        let usable = match &n.right_child {
            Some(y) => !y.is_nil,
            None => false,
        };
        proof {
            assert(usable == rot_left_usable(*old(node)));
        }
        if !usable {
            if !n.is_nil {
                let lh = AVLTreeNode::get_height(&n.left_child);
                let rh = AVLTreeNode::get_height(&n.right_child);
                n.height = 1 + if lh >= rh { lh } else { rh };
            }
            *node = Some(n);
            proof {
                assert(avl_as_set(*node) =~= avl_as_set(*old(node)));
                if avl_children_linked(*old(node)) {
                    assert(avl_parents_ok(n0.left_child, Some(n0.key)));
                    assert(avl_parents_ok(n0.right_child, Some(n0.key)));
                    let f = (*node).unwrap();
                    assert(avl_parents_ok(f.left_child, Some(f.key)));
                    assert(avl_parents_ok(f.right_child, Some(f.key)));
                }
                assert(avl_heights_ok(*node));
                assert(avl_spec_height(*node) == avl_spec_height(*old(node)));
                assert(avl_balanced(*node) == avl_balanced(*old(node)));
            }
            return;
        }
        let mut y = n.right_child.take().unwrap();
        let ghost y0 = y;
        proof {
            assert(n0.right_child == Some(y0));
            assert(avl_wf(Some(y0)));
            assert(!n0.is_nil);
            avl_lemma_counts(y0.left_child);
            avl_lemma_cached(y0.left_child);
            avl_lemma_cached(y0.right_child);
        }
        match y.left_child.take() {
            Some(mut b) => {
                b.parent = Some(n.key);
                n.right_child = Some(b);
            }
            None => {
                n.right_child = None;
            }
        }
        y.parent = n.parent;
        n.parent = Some(y.key);
        proof {
            if y0.left_child.is_some() {
                avl_lemma_root_fields(y0.left_child.unwrap(), n.right_child.unwrap());
            }
        }
        // recompute the lowered node's height, then the lifted node's
        let lh = AVLTreeNode::get_height(&n.left_child);
        let rh = AVLTreeNode::get_height(&n.right_child);
        n.height = 1 + if lh >= rh { lh } else { rh };
        y.left_child = Some(n);
        let lh2 = AVLTreeNode::get_height(&y.left_child);
        let rh2 = AVLTreeNode::get_height(&y.right_child);
        y.height = 1 + if lh2 >= rh2 { lh2 } else { rh2 };
        *node = Some(y);
        proof {
            let f = (*node).unwrap();
            let x = f.left_child.unwrap();
            assert(avl_as_set(x.right_child) == avl_as_set(y0.left_child));
            assert(avl_wf(x.right_child) == avl_wf(y0.left_child));
            assert(avl_size(x.right_child) == avl_size(y0.left_child));
            assert(avl_no_nil(x.right_child) == avl_no_nil(y0.left_child));
            assert(avl_spec_height(x.right_child) == avl_spec_height(y0.left_child));
            assert(avl_heights_ok(x.right_child) == avl_heights_ok(y0.left_child));
            assert(avl_as_set(Some(y0)) == avl_as_set(y0.left_child)
                .union(avl_as_set(y0.right_child)).insert(y0.key));
            assert(avl_as_set(Some(n0)) == avl_as_set(n0.left_child)
                .union(avl_as_set(Some(y0))).insert(n0.key));
            assert(avl_as_set(Some(y0)).contains(y0.key));
            assert(y0.key > n0.key);
            assert(avl_as_set(Some(x)) == avl_as_set(n0.left_child)
                .union(avl_as_set(x.right_child)).insert(n0.key));
            assert(forall|e: u64| avl_as_set(y0.left_child).contains(e)
                ==> avl_as_set(Some(y0)).contains(e));
            assert(avl_wf(Some(x)));
            assert(avl_as_set(*node) == avl_as_set(Some(x))
                .union(avl_as_set(y0.right_child)).insert(y0.key));
            assert(avl_as_set(*node) =~= avl_as_set(*old(node)));
            assert(avl_wf(*node));
            assert(avl_size(Some(y0)) == 1 + avl_size(y0.left_child) + avl_size(y0.right_child));
            assert(avl_size(Some(n0)) == 1 + avl_size(n0.left_child) + avl_size(Some(y0)));
            assert(avl_size(Some(x)) == 1 + avl_size(n0.left_child) + avl_size(x.right_child));
            assert(avl_size(*node) == 1 + avl_size(Some(x)) + avl_size(y0.right_child));
            assert(avl_size(*node) == avl_size(*old(node)));
            assert(avl_heights_ok(Some(x)));
            assert(avl_heights_ok(*node));
            if avl_no_nil(*old(node)) {
                assert(avl_no_nil(Some(n0)));
                assert(!n0.is_nil && avl_no_nil(n0.left_child) && avl_no_nil(Some(y0)));
                assert(avl_no_nil(y0.left_child) && avl_no_nil(y0.right_child));
                assert(avl_no_nil(Some(x)));
                assert(avl_no_nil(*node));
            }
            if avl_children_linked(*old(node)) {
                assert(avl_parents_ok(n0.left_child, Some(n0.key)));
                assert(avl_parents_ok(n0.right_child, Some(n0.key)));
                assert(avl_parents_ok(y0.left_child, Some(y0.key)));
                assert(avl_parents_ok(y0.right_child, Some(y0.key)));
                assert(avl_children_linked(x.right_child) == avl_children_linked(y0.left_child));
                assert(avl_parents_ok(x.right_child, Some(x.key)));
                assert(avl_parents_ok(f.left_child, Some(f.key)));
                assert(avl_parents_ok(f.right_child, Some(f.key)));
                assert(avl_children_linked(*node));
            }
            let a_h = avl_spec_height(n0.left_child);
            let b_h = avl_spec_height(y0.left_child);
            let c_h = avl_spec_height(y0.right_child);
            assert(avl_left_spec(*old(node)) == n0.left_child);
            assert(avl_right_spec(*old(node)) == Some(y0));
            assert(avl_left_spec(Some(y0)) == y0.left_child);
            assert(avl_right_spec(Some(y0)) == y0.right_child);
            assert(avl_spec_height(Some(x)) == 1 + h_max(a_h, b_h));
            assert(avl_spec_height(*node) == 1 + h_max(1 + h_max(a_h, b_h), c_h));
            if avl_balanced(n0.left_child) && avl_balanced(y0.left_child)
                && avl_balanced(y0.right_child)
                && -1 <= b_h - a_h <= 1
                && -1 <= c_h - (1 + h_max(a_h, b_h)) <= 1 {
                assert(avl_balanced(x.right_child) == avl_balanced(y0.left_child));
                assert(avl_balanced(Some(x)));
                assert(avl_balanced(*node));
            }
        }
    }

    /// Mirror image of `rotate_left_local`.
    fn rotate_right_local(node: &mut AVLChild)
        requires
            old(node).is_some(),
            avl_wf(*old(node)),
            avl_heights_ok(avl_left_spec(*old(node))),
            avl_heights_ok(avl_right_spec(*old(node))),
            avl_size(*old(node)) <= SIZE_CAP,
        ensures
            *final(node) == avl_rotate_right_here(*old(node)),
            final(node).is_some(),
            avl_wf(*final(node)),
            avl_heights_ok(*final(node)),
            avl_as_set(*final(node)) =~= avl_as_set(*old(node)),
            avl_size(*final(node)) == avl_size(*old(node)),
            avl_no_nil(*old(node)) ==> avl_no_nil(*final(node)),
            avl_children_linked(*old(node)) ==> avl_children_linked(*final(node)),
            avl_root_parent_spec(*final(node)) == avl_root_parent_spec(*old(node)),
            !rot_right_usable(*old(node)) ==> avl_spec_height(*final(node)) == avl_spec_height(*old(node))
                && (avl_balanced(*old(node)) ==> avl_balanced(*final(node))),
            rot_right_usable(*old(node)) ==> avl_spec_height(*final(node))
                == 1 + h_max(avl_spec_height(avl_left_spec(avl_left_spec(*old(node)))),
                    1 + h_max(
                        avl_spec_height(avl_right_spec(avl_left_spec(*old(node)))),
                        avl_spec_height(avl_right_spec(*old(node))))),
            (rot_right_usable(*old(node))
                && avl_balanced(avl_left_spec(avl_left_spec(*old(node))))
                && avl_balanced(avl_right_spec(avl_left_spec(*old(node))))
                && avl_balanced(avl_right_spec(*old(node)))
                && -1 <= avl_spec_height(avl_right_spec(*old(node)))
                    - avl_spec_height(avl_right_spec(avl_left_spec(*old(node)))) <= 1
                && -1 <= (1 + h_max(avl_spec_height(avl_right_spec(avl_left_spec(*old(node)))),
                        avl_spec_height(avl_right_spec(*old(node)))))
                    - avl_spec_height(avl_left_spec(avl_left_spec(*old(node)))) <= 1)
                ==> avl_balanced(*final(node)),
            rot_right_usable(*old(node)) ==> ({
                &&& avl_left_spec(*final(node)) == avl_left_spec(avl_left_spec(*old(node)))
                &&& avl_right_spec(avl_right_spec(*final(node))) == avl_right_spec(*old(node))
                &&& avl_spec_height(avl_left_spec(avl_right_spec(*final(node))))
                    == avl_spec_height(avl_right_spec(avl_left_spec(*old(node))))
                &&& (avl_balanced(avl_right_spec(avl_left_spec(*old(node))))
                    ==> avl_balanced(avl_left_spec(avl_right_spec(*final(node)))))
                &&& avl_spec_height(avl_right_spec(*final(node)))
                    == 1 + h_max(avl_spec_height(avl_right_spec(avl_left_spec(*old(node)))),
                        avl_spec_height(avl_right_spec(*old(node))))
                &&& ((avl_balanced(avl_right_spec(avl_left_spec(*old(node))))
                        && avl_balanced(avl_right_spec(*old(node)))
                        && -1 <= avl_spec_height(avl_right_spec(*old(node)))
                            - avl_spec_height(avl_right_spec(avl_left_spec(*old(node)))) <= 1)
                    ==> avl_balanced(avl_right_spec(*final(node))))
            }),
        decreases *old(node),
    {
        let mut n = node.take().unwrap();
        let ghost n0 = n;
        proof {
            avl_lemma_counts(n0.left_child);
            avl_lemma_counts(n0.right_child);
            avl_lemma_cached(n0.left_child);
            avl_lemma_cached(n0.right_child);
        }
        let usable = match &n.left_child {
            Some(y) => !y.is_nil,
            None => false,
        };
        proof {
            assert(usable == rot_right_usable(*old(node)));
        }
        if !usable {
            if !n.is_nil {
                let lh = AVLTreeNode::get_height(&n.left_child);
                let rh = AVLTreeNode::get_height(&n.right_child);
                n.height = 1 + if lh >= rh { lh } else { rh };
            }
            *node = Some(n);
            proof {
                assert(avl_as_set(*node) =~= avl_as_set(*old(node)));
                if avl_children_linked(*old(node)) {
                    assert(avl_parents_ok(n0.left_child, Some(n0.key)));
                    assert(avl_parents_ok(n0.right_child, Some(n0.key)));
                    let f = (*node).unwrap();
                    assert(avl_parents_ok(f.left_child, Some(f.key)));
                    assert(avl_parents_ok(f.right_child, Some(f.key)));
                }
                assert(avl_heights_ok(*node));
                assert(avl_spec_height(*node) == avl_spec_height(*old(node)));
                assert(avl_balanced(*node) == avl_balanced(*old(node)));
            }
            return;
        }
        let mut y = n.left_child.take().unwrap();
        let ghost y0 = y;
        proof {
            assert(n0.left_child == Some(y0));
            assert(avl_wf(Some(y0)));
            assert(!n0.is_nil);
            avl_lemma_counts(y0.right_child);
            avl_lemma_cached(y0.right_child);
            avl_lemma_cached(y0.left_child);
        }
        match y.right_child.take() {
            Some(mut b) => {
                b.parent = Some(n.key);
                n.left_child = Some(b);
            }
            None => {
                n.left_child = None;
            }
        }
        y.parent = n.parent;
        n.parent = Some(y.key);
        proof {
            if y0.right_child.is_some() {
                avl_lemma_root_fields(y0.right_child.unwrap(), n.left_child.unwrap());
            }
        }
        // recompute the lowered node's height, then the lifted node's
        let lh = AVLTreeNode::get_height(&n.left_child);
        let rh = AVLTreeNode::get_height(&n.right_child);
        n.height = 1 + if lh >= rh { lh } else { rh };
        y.right_child = Some(n);
        let lh2 = AVLTreeNode::get_height(&y.left_child);
        let rh2 = AVLTreeNode::get_height(&y.right_child);
        y.height = 1 + if lh2 >= rh2 { lh2 } else { rh2 };
        *node = Some(y);
        proof {
            let f = (*node).unwrap();
            let x = f.right_child.unwrap();
            assert(avl_as_set(x.left_child) == avl_as_set(y0.right_child));
            assert(avl_wf(x.left_child) == avl_wf(y0.right_child));
            assert(avl_size(x.left_child) == avl_size(y0.right_child));
            assert(avl_no_nil(x.left_child) == avl_no_nil(y0.right_child));
            assert(avl_spec_height(x.left_child) == avl_spec_height(y0.right_child));
            assert(avl_heights_ok(x.left_child) == avl_heights_ok(y0.right_child));
            assert(avl_as_set(Some(y0)) == avl_as_set(y0.left_child)
                .union(avl_as_set(y0.right_child)).insert(y0.key));
            assert(avl_as_set(Some(n0)) == avl_as_set(Some(y0))
                .union(avl_as_set(n0.right_child)).insert(n0.key));
            assert(avl_as_set(Some(y0)).contains(y0.key));
            assert(y0.key < n0.key);
            assert(avl_as_set(Some(x)) == avl_as_set(x.left_child)
                .union(avl_as_set(n0.right_child)).insert(n0.key));
            assert(forall|e: u64| avl_as_set(y0.right_child).contains(e)
                ==> avl_as_set(Some(y0)).contains(e));
            assert(avl_wf(Some(x)));
            assert(avl_as_set(*node) == avl_as_set(y0.left_child)
                .union(avl_as_set(Some(x))).insert(y0.key));
            assert(avl_as_set(*node) =~= avl_as_set(*old(node)));
            assert(avl_wf(*node));
            assert(avl_size(Some(y0)) == 1 + avl_size(y0.left_child) + avl_size(y0.right_child));
            assert(avl_size(Some(n0)) == 1 + avl_size(Some(y0)) + avl_size(n0.right_child));
            assert(avl_size(Some(x)) == 1 + avl_size(x.left_child) + avl_size(n0.right_child));
            assert(avl_size(*node) == 1 + avl_size(y0.left_child) + avl_size(Some(x)));
            assert(avl_size(*node) == avl_size(*old(node)));
            assert(avl_heights_ok(Some(x)));
            assert(avl_heights_ok(*node));
            if avl_no_nil(*old(node)) {
                assert(avl_no_nil(Some(n0)));
                assert(!n0.is_nil && avl_no_nil(n0.right_child) && avl_no_nil(Some(y0)));
                assert(avl_no_nil(y0.left_child) && avl_no_nil(y0.right_child));
                assert(avl_no_nil(Some(x)));
                assert(avl_no_nil(*node));
            }
            if avl_children_linked(*old(node)) {
                assert(avl_parents_ok(n0.left_child, Some(n0.key)));
                assert(avl_parents_ok(n0.right_child, Some(n0.key)));
                assert(avl_parents_ok(y0.left_child, Some(y0.key)));
                assert(avl_parents_ok(y0.right_child, Some(y0.key)));
                assert(avl_children_linked(x.left_child) == avl_children_linked(y0.right_child));
                assert(avl_parents_ok(x.left_child, Some(x.key)));
                assert(avl_parents_ok(f.left_child, Some(f.key)));
                assert(avl_parents_ok(f.right_child, Some(f.key)));
                assert(avl_children_linked(*node));
            }
            let a_h = avl_spec_height(y0.left_child);
            let b_h = avl_spec_height(y0.right_child);
            let c_h = avl_spec_height(n0.right_child);
            assert(avl_left_spec(*old(node)) == Some(y0));
            assert(avl_right_spec(*old(node)) == n0.right_child);
            assert(avl_left_spec(Some(y0)) == y0.left_child);
            assert(avl_right_spec(Some(y0)) == y0.right_child);
            assert(avl_spec_height(Some(x)) == 1 + h_max(b_h, c_h));
            assert(avl_spec_height(*node) == 1 + h_max(a_h, 1 + h_max(b_h, c_h)));
            if avl_balanced(y0.left_child) && avl_balanced(y0.right_child)
                && avl_balanced(n0.right_child)
                && -1 <= c_h - b_h <= 1
                && -1 <= (1 + h_max(b_h, c_h)) - a_h <= 1 {
                assert(avl_balanced(x.left_child) == avl_balanced(y0.right_child));
                assert(avl_balanced(Some(x)));
                assert(avl_balanced(*node));
            }
        }
    }

    /// Refresh the node's cached height and re-balance it locally by the
    /// height-driven rotation table. When the children obey the AVL
    /// discipline and differ in height by at most two, the result obeys it
    /// too, and its height lands between the taller child's height and one
    /// more than that.
    #[verifier::rlimit(60)]
    pub(crate) fn fix_node(node: &mut AVLChild)
        requires
            old(node).is_some(),
            !old(node).unwrap().is_nil,
            avl_wf(*old(node)),
            avl_heights_ok(avl_left_spec(*old(node))),
            avl_heights_ok(avl_right_spec(*old(node))),
            avl_size(*old(node)) <= SIZE_CAP,
        ensures
            *final(node) == avl_fix_node_spec(*old(node)),
            final(node).is_some(),
            avl_wf(*final(node)),
            avl_heights_ok(*final(node)),
            avl_as_set(*final(node)) =~= avl_as_set(*old(node)),
            avl_size(*final(node)) == avl_size(*old(node)),
            avl_no_nil(*old(node)) ==> avl_no_nil(*final(node)),
            avl_children_linked(*old(node)) ==> avl_children_linked(*final(node)),
            avl_root_parent_spec(*final(node)) == avl_root_parent_spec(*old(node)),
            ({
                let hl = avl_spec_height(avl_left_spec(*old(node)));
                let hr = avl_spec_height(avl_right_spec(*old(node)));
                (avl_balanced(avl_left_spec(*old(node)))
                    && avl_balanced(avl_right_spec(*old(node)))
                    && -2 <= hr - hl <= 2)
                ==> (avl_balanced(*final(node))
                    && h_max(hl, hr) <= avl_spec_height(*final(node))
                    && avl_spec_height(*final(node)) <= 1 + h_max(hl, hr)
                    && (-1 <= hr - hl <= 1
                        ==> avl_spec_height(*final(node)) == 1 + h_max(hl, hr)))
            }),
    {
        proof {
            avl_lemma_counts(old(node).unwrap().left_child);
            avl_lemma_counts(old(node).unwrap().right_child);
            avl_lemma_cached(old(node).unwrap().left_child);
            avl_lemma_cached(old(node).unwrap().right_child);
        }
        let ghost l0 = old(node).unwrap().left_child;
        let ghost r0 = old(node).unwrap().right_child;
        let ghost hl = avl_spec_height(l0);
        let ghost hr = avl_spec_height(r0);
        let ghost hyp = avl_balanced(l0) && avl_balanced(r0) && -2 <= hr - hl <= 2;
        let (lh, rh) = match &*node {
            Some(n) => (AVLTreeNode::get_height(&n.left_child), AVLTreeNode::get_height(&n.right_child)),
            None => (0, 0),
        };
        proof {
            assert(lh == hl && rh == hr);
        }
        if lh >= rh + 2 {
            // left heavy
            proof {
                if hyp {
                    assert(hl == hr + 2);
                    assert(l0.is_some() && !l0.unwrap().is_nil);
                    assert(avl_heights_ok(l0.unwrap().left_child));
                    assert(avl_heights_ok(l0.unwrap().right_child));
                    avl_lemma_cached(l0.unwrap().left_child);
                    avl_lemma_cached(l0.unwrap().right_child);
                    assert(hl == 1 + h_max(avl_spec_height(l0.unwrap().left_child),
                        avl_spec_height(l0.unwrap().right_child)));
                }
            }
            let (llh, lrh) = match &*node {
                Some(n) => {
                    match &n.left_child {
                        Some(l) => (AVLTreeNode::get_height(&l.left_child), AVLTreeNode::get_height(&l.right_child)),
                        None => (0, 0),
                    }
                }
                None => (0, 0),
            };
            if lrh > llh {
                // left-right: rotate the left child left first
                let mut n = node.take().unwrap();
                proof {
                    if hyp {
                        assert(llh == avl_spec_height(avl_left_spec(l0)));
                        assert(lrh == avl_spec_height(avl_right_spec(l0)));
                        assert(avl_spec_height(avl_right_spec(l0)) == hl - 1);
                        assert(avl_spec_height(avl_left_spec(l0)) == hl - 2);
                        assert(rot_left_usable(l0));
                        assert(avl_balanced(avl_left_spec(l0)));
                        assert(avl_balanced(avl_right_spec(l0)));
                        let lr = avl_right_spec(l0);
                        assert(lr.is_some() && !lr.unwrap().is_nil);
                        assert(avl_balanced(avl_left_spec(lr)) && avl_balanced(avl_right_spec(lr)));
                        assert(hl - 1 == 1 + h_max(avl_spec_height(avl_left_spec(lr)),
                            avl_spec_height(avl_right_spec(lr))));
                    }
                }
                if n.left_child.is_some() {
                    AVLTreeNode::rotate_left_local(&mut n.left_child);
                }
                *node = Some(n);
                proof {
                    let f = (*node).unwrap();
                    let o = old(node).unwrap();
                    assert(avl_as_set(*node) =~= avl_as_set(*old(node)));
                    assert(avl_wf(*node));
                    if avl_children_linked(*old(node)) {
                        assert(avl_parents_ok(o.left_child, Some(o.key)));
                        assert(avl_parents_ok(o.right_child, Some(o.key)));
                        assert(avl_parents_ok(f.left_child, Some(f.key)));
                        assert(avl_parents_ok(f.right_child, Some(f.key)));
                    }
                    if hyp {
                        let lp = f.left_child;
                        // the rotated left child: its parts and heights
                        assert(avl_spec_height(avl_left_spec(lp)) == hl - 1);
                        assert(avl_balanced(avl_left_spec(lp)));
                        assert(avl_right_spec(lp) == avl_right_spec(avl_right_spec(l0)));
                        assert(avl_balanced(avl_right_spec(lp)));
                        assert(hl - 3 <= avl_spec_height(avl_right_spec(lp)) <= hl - 2);
                        assert(lp.is_some() && !lp.unwrap().is_nil);
                        assert(rot_right_usable(*node));
                    }
                }
                let ghost mid = *node;
                AVLTreeNode::rotate_right_local(node);
                proof {
                    if hyp {
                        assert(avl_right_spec(mid) == r0);
                        assert(avl_balanced(*node));
                        assert(avl_spec_height(*node) == hl);
                    }
                }
            } else {
                proof {
                    if hyp {
                        assert(llh == avl_spec_height(avl_left_spec(l0)));
                        assert(lrh == avl_spec_height(avl_right_spec(l0)));
                        assert(avl_spec_height(avl_left_spec(l0)) == hl - 1);
                        assert(hl - 2 <= avl_spec_height(avl_right_spec(l0)) <= hl - 1);
                        assert(rot_right_usable(*node));
                        assert(avl_balanced(avl_left_spec(l0)));
                        assert(avl_balanced(avl_right_spec(l0)));
                    }
                }
                AVLTreeNode::rotate_right_local(node);
                proof {
                    if hyp {
                        assert(avl_balanced(*node));
                        assert(hl <= avl_spec_height(*node) <= hl + 1);
                    }
                }
            }
        } else if rh >= lh + 2 {
            // right heavy
            proof {
                if hyp {
                    assert(hr == hl + 2);
                    assert(r0.is_some() && !r0.unwrap().is_nil);
                    assert(avl_heights_ok(r0.unwrap().left_child));
                    assert(avl_heights_ok(r0.unwrap().right_child));
                    avl_lemma_cached(r0.unwrap().left_child);
                    avl_lemma_cached(r0.unwrap().right_child);
                    assert(hr == 1 + h_max(avl_spec_height(r0.unwrap().left_child),
                        avl_spec_height(r0.unwrap().right_child)));
                }
            }
            let (rlh, rrh) = match &*node {
                Some(n) => {
                    match &n.right_child {
                        Some(r) => (AVLTreeNode::get_height(&r.left_child), AVLTreeNode::get_height(&r.right_child)),
                        None => (0, 0),
                    }
                }
                None => (0, 0),
            };
            if rlh > rrh {
                // right-left: rotate the right child right first
                let mut n = node.take().unwrap();
                proof {
                    if hyp {
                        assert(rlh == avl_spec_height(avl_left_spec(r0)));
                        assert(rrh == avl_spec_height(avl_right_spec(r0)));
                        assert(avl_spec_height(avl_left_spec(r0)) == hr - 1);
                        assert(avl_spec_height(avl_right_spec(r0)) == hr - 2);
                        assert(rot_right_usable(r0));
                        assert(avl_balanced(avl_left_spec(r0)));
                        assert(avl_balanced(avl_right_spec(r0)));
                        let rl = avl_left_spec(r0);
                        assert(rl.is_some() && !rl.unwrap().is_nil);
                        assert(avl_balanced(avl_left_spec(rl)) && avl_balanced(avl_right_spec(rl)));
                        assert(hr - 1 == 1 + h_max(avl_spec_height(avl_left_spec(rl)),
                            avl_spec_height(avl_right_spec(rl))));
                    }
                }
                if n.right_child.is_some() {
                    AVLTreeNode::rotate_right_local(&mut n.right_child);
                }
                *node = Some(n);
                proof {
                    let f = (*node).unwrap();
                    let o = old(node).unwrap();
                    assert(avl_as_set(*node) =~= avl_as_set(*old(node)));
                    assert(avl_wf(*node));
                    if avl_children_linked(*old(node)) {
                        assert(avl_parents_ok(o.left_child, Some(o.key)));
                        assert(avl_parents_ok(o.right_child, Some(o.key)));
                        assert(avl_parents_ok(f.left_child, Some(f.key)));
                        assert(avl_parents_ok(f.right_child, Some(f.key)));
                    }
                    if hyp {
                        let rp = f.right_child;
                        // the rotated right child: its parts and heights
                        assert(avl_spec_height(avl_right_spec(rp)) == hr - 1);
                        assert(avl_balanced(avl_right_spec(rp)));
                        assert(avl_left_spec(rp) == avl_left_spec(avl_left_spec(r0)));
                        assert(avl_balanced(avl_left_spec(rp)));
                        assert(hr - 3 <= avl_spec_height(avl_left_spec(rp)) <= hr - 2);
                        assert(rp.is_some() && !rp.unwrap().is_nil);
                        assert(rot_left_usable(*node));
                    }
                }
                let ghost mid = *node;
                AVLTreeNode::rotate_left_local(node);
                proof {
                    if hyp {
                        assert(avl_left_spec(mid) == l0);
                        assert(avl_balanced(*node));
                        assert(avl_spec_height(*node) == hr);
                    }
                }
            } else {
                proof {
                    if hyp {
                        assert(rlh == avl_spec_height(avl_left_spec(r0)));
                        assert(rrh == avl_spec_height(avl_right_spec(r0)));
                        assert(avl_spec_height(avl_right_spec(r0)) == hr - 1);
                        assert(hr - 2 <= avl_spec_height(avl_left_spec(r0)) <= hr - 1);
                        assert(rot_left_usable(*node));
                        assert(avl_balanced(avl_left_spec(r0)));
                        assert(avl_balanced(avl_right_spec(r0)));
                    }
                }
                AVLTreeNode::rotate_left_local(node);
                proof {
                    if hyp {
                        assert(avl_balanced(*node));
                        assert(hr <= avl_spec_height(*node) <= hr + 1);
                    }
                }
            }
        } else {
            // balanced enough: refresh the cached height only
            let mut n = node.take().unwrap();
            n.height = 1 + if lh >= rh { lh } else { rh };
            *node = Some(n);
            proof {
                let f = (*node).unwrap();
                let o = old(node).unwrap();
                assert(avl_as_set(*node) =~= avl_as_set(*old(node)));
                assert(avl_heights_ok(*node));
                if avl_children_linked(*old(node)) {
                    assert(avl_parents_ok(o.left_child, Some(o.key)));
                    assert(avl_parents_ok(o.right_child, Some(o.key)));
                    assert(avl_parents_ok(f.left_child, Some(f.key)));
                    assert(avl_parents_ok(f.right_child, Some(f.key)));
                }
                assert(avl_spec_height(*node) == 1 + h_max(hl, hr));
                if hyp {
                    assert(avl_balanced(*node));
                }
            }
        }
    }

    /// Left rotation around the node carrying `key`; returns the possibly
    /// changed root and refreshes the two moved nodes' cached heights. A
    /// no-op when `key` is absent or the node's right child is absent or
    /// nil. Ancestors' caches are the caller's to refresh.
    pub fn left_rotate(root: AVLChild, key: u64) -> (r: AVLChild)
        requires
            root.is_some(),
            avl_wf(root),
            avl_heights_ok(root),
            avl_size(root) <= SIZE_CAP,
        ensures
            r == avl_rotate_spec(root, key, Direction::Left),
            r.is_some(),
            avl_wf(r),
            avl_as_set(r) =~= avl_as_set(root),
            avl_size(r) == avl_size(root),
            avl_no_nil(root) ==> avl_no_nil(r),
            avl_children_linked(root) ==> avl_children_linked(r),
            avl_root_parent_spec(r) == avl_root_parent_spec(root),
    {
        let mut t = root;
        AVLTreeNode::rotate_rec(&mut t, key, Direction::Left);
        t
    }

    /// Right rotation around the node carrying `key`; the mirror image of
    /// `left_rotate`.
    pub fn right_rotate(root: AVLChild, key: u64) -> (r: AVLChild)
        requires
            root.is_some(),
            avl_wf(root),
            avl_heights_ok(root),
            avl_size(root) <= SIZE_CAP,
        ensures
            r == avl_rotate_spec(root, key, Direction::Right),
            r.is_some(),
            avl_wf(r),
            avl_as_set(r) =~= avl_as_set(root),
            avl_size(r) == avl_size(root),
            avl_no_nil(root) ==> avl_no_nil(r),
            avl_children_linked(root) ==> avl_children_linked(r),
            avl_root_parent_spec(r) == avl_root_parent_spec(root),
    {
        let mut t = root;
        AVLTreeNode::rotate_rec(&mut t, key, Direction::Right);
        t
    }

    fn rotate_rec(node: &mut AVLChild, key: u64, dir: Direction)
        requires
            old(node).is_some(),
            avl_wf(*old(node)),
            avl_heights_ok(*old(node)),
            avl_size(*old(node)) <= SIZE_CAP,
        ensures
            *final(node) == avl_rotate_spec(*old(node), key, dir),
            final(node).is_some(),
            avl_wf(*final(node)),
            avl_as_set(*final(node)) =~= avl_as_set(*old(node)),
            avl_size(*final(node)) == avl_size(*old(node)),
            avl_no_nil(*old(node)) ==> avl_no_nil(*final(node)),
            avl_children_linked(*old(node)) ==> avl_children_linked(*final(node)),
            avl_root_parent_spec(*final(node)) == avl_root_parent_spec(*old(node)),
        decreases *old(node),
    {
        proof {
            avl_lemma_counts(*old(node));
        }
        let hit = match &*node {
            Some(n) => key == n.key,
            None => false,
        };
        if hit {
            match dir {
                Direction::Left => {
                    AVLTreeNode::rotate_left_local(node);
                }
                Direction::Right => {
                    AVLTreeNode::rotate_right_local(node);
                }
            }
            return;
        }
        let mut n = node.take().unwrap();
        let ghost n0 = n;
        if key < n.key {
            if n.left_child.is_some() {
                AVLTreeNode::rotate_rec(&mut n.left_child, key, dir);
            }
        } else {
            if n.right_child.is_some() {
                AVLTreeNode::rotate_rec(&mut n.right_child, key, dir);
            }
        }
        *node = Some(n);
        proof {
            let f = (*node).unwrap();
            assert(avl_as_set(f.left_child) == avl_as_set(n0.left_child));
            assert(avl_as_set(f.right_child) == avl_as_set(n0.right_child));
            assert(avl_as_set(*node) =~= avl_as_set(*old(node)));
            if avl_children_linked(*old(node)) {
                assert(avl_parents_ok(n0.left_child, Some(n0.key)));
                assert(avl_parents_ok(n0.right_child, Some(n0.key)));
                assert(avl_parents_ok(f.left_child, Some(f.key)));
                assert(avl_parents_ok(f.right_child, Some(f.key)));
            }
        }
    }

    /// Insert `key` by binary-search descent and re-balance every node on
    /// the way back up, refreshing each cached height.
    pub(crate) fn insert_bal(node: &mut AVLChild, key: u64)
        requires
            old(node).is_some(),
            avl_wf(*old(node)),
            avl_no_nil(*old(node)),
            avl_heights_ok(*old(node)),
            avl_size(*old(node)) < SIZE_CAP,
        ensures
            *final(node) == avl_insert_bal_spec(*old(node), key),
            final(node).is_some(),
            avl_wf(*final(node)),
            avl_no_nil(*final(node)),
            avl_heights_ok(*final(node)),
            avl_as_set(*final(node)) =~= avl_as_set(*old(node)).insert(key),
            avl_size(*final(node)) <= avl_size(*old(node)) + 1,
            avl_children_linked(*old(node)) ==> avl_children_linked(*final(node)),
            avl_root_parent_spec(*final(node)) == avl_root_parent_spec(*old(node)),
            avl_balanced(*old(node)) ==> (avl_balanced(*final(node))
                && avl_spec_height(*old(node)) <= avl_spec_height(*final(node))
                && avl_spec_height(*final(node)) <= avl_spec_height(*old(node)) + 1),
        decreases *old(node),
    {
        let mut n = node.take().unwrap();
        let ghost n0 = n;
        if key == n.key {
        } else if key < n.key {
            proof {
                assert(!avl_as_set(n.right_child).contains(key));
            }
            if n.left_child.is_some() {
                AVLTreeNode::insert_bal(&mut n.left_child, key);
            } else {
                n.left_child = AVLTreeNode::new_node(key, Some(n.key), false);
                proof {
                    avl_lemma_new_node(key, Some(n.key), false);
                }
            }
        } else {
            proof {
                assert(!avl_as_set(n.left_child).contains(key));
            }
            if n.right_child.is_some() {
                AVLTreeNode::insert_bal(&mut n.right_child, key);
            } else {
                n.right_child = AVLTreeNode::new_node(key, Some(n.key), false);
                proof {
                    avl_lemma_new_node(key, Some(n.key), false);
                }
            }
        }
        *node = Some(n);
        proof {
            let f = (*node).unwrap();
            assert(avl_as_set(*node) =~= avl_as_set(*old(node)).insert(key));
            assert(avl_wf(*node));
            assert(avl_size(*node) <= avl_size(*old(node)) + 1);
            if avl_children_linked(*old(node)) {
                assert(avl_parents_ok(n0.left_child, Some(n0.key)));
                assert(avl_parents_ok(n0.right_child, Some(n0.key)));
                assert(avl_parents_ok(f.left_child, Some(f.key)));
                assert(avl_parents_ok(f.right_child, Some(f.key)));
            }
        }
        let ghost snap = *node;
        AVLTreeNode::fix_node(node);
        proof {
            assert(avl_as_set(*node) =~= avl_as_set(*old(node)).insert(key));
            if avl_children_linked(*old(node)) {
                assert(avl_children_linked(snap));
            }
            if avl_balanced(*old(node)) {
                let hl0 = avl_spec_height(n0.left_child);
                let hr0 = avl_spec_height(n0.right_child);
                let l1 = avl_left_spec(snap);
                let r1 = avl_right_spec(snap);
                let hl1 = avl_spec_height(l1);
                let hr1 = avl_spec_height(r1);
                assert(avl_balanced(n0.left_child) && avl_balanced(n0.right_child));
                assert(-1 <= hr0 - hl0 <= 1);
                assert(avl_balanced(l1) && avl_balanced(r1));
                assert(hl0 <= hl1 <= hl0 + 1 && hr0 <= hr1 <= hr0 + 1);
                assert(hl1 == hl0 || hr1 == hr0);
                assert(-2 <= hr1 - hl1 <= 2);
                assert(avl_balanced(*node));
                assert(avl_spec_height(*old(node)) == 1 + h_max(hl0, hr0));
                if -1 <= hr1 - hl1 <= 1 {
                    assert(avl_spec_height(*node) == 1 + h_max(hl1, hr1));
                } else {
                    assert(h_max(hl1, hr1) >= 1 + h_max(hl0, hr0));
                }
                assert(avl_spec_height(*old(node)) <= avl_spec_height(*node));
                assert(avl_spec_height(*node) <= avl_spec_height(*old(node)) + 1);
            }
        }
    }
}

impl AVLTreeNode {
    /// Remove the leftmost real node, replacing it with its right child and
    /// re-balancing the walked path on the way back up. Returns its key.
    pub(crate) fn extract_min_bal(node: &mut AVLChild) -> (r: u64)
        requires
            old(node).is_some(),
            !old(node).unwrap().is_nil,
            avl_wf(*old(node)),
            avl_heights_ok(*old(node)),
            avl_size(*old(node)) <= SIZE_CAP,
        ensures
            *final(node) == avl_extract_min_spec(*old(node)).0,
            r == avl_extract_min_spec(*old(node)).1,
            avl_wf(*final(node)),
            avl_heights_ok(*final(node)),
            avl_as_set(*old(node)).contains(r),
            forall|e: u64| avl_as_set(*old(node)).contains(e) ==> r <= e,
            avl_as_set(*final(node)) =~= avl_as_set(*old(node)).remove(r),
            avl_size(*final(node)) <= avl_size(*old(node)),
            avl_children_linked(*old(node)) ==> avl_children_linked(*final(node)),
            final(node).is_some() ==> avl_root_parent_spec(*final(node)) == avl_root_parent_spec(*old(node)),
            avl_no_nil(*old(node)) ==> avl_no_nil(*final(node)),
            avl_balanced(*old(node)) ==> (avl_balanced(*final(node))
                && avl_spec_height(*old(node)) - 1 <= avl_spec_height(*final(node))
                && avl_spec_height(*final(node)) <= avl_spec_height(*old(node))),
        decreases *old(node),
    {
        let mut n = node.take().unwrap();
        let ghost n0 = n;
        let left_real = match &n.left_child {
            Some(l) => !l.is_nil,
            None => false,
        };
        if left_real {
            let min_key = AVLTreeNode::extract_min_bal(&mut n.left_child);
            *node = Some(n);
            proof {
                let f = (*node).unwrap();
                assert(avl_as_set(Some(n0)) == avl_as_set(n0.left_child)
                    .union(avl_as_set(n0.right_child)).insert(n0.key));
                assert(avl_as_set(*node) == avl_as_set(f.left_child)
                    .union(avl_as_set(n0.right_child)).insert(n0.key));
                assert(avl_as_set(n0.left_child).contains(min_key));
                assert(min_key < n0.key);
                assert(forall|e: u64| avl_as_set(n0.right_child).contains(e) ==> min_key <= e);
                assert(avl_as_set(*node) =~= avl_as_set(Some(n0)).remove(min_key));
                assert(avl_wf(*node));
                if avl_children_linked(Some(n0)) {
                    assert(avl_parents_ok(n0.left_child, Some(n0.key)));
                    assert(avl_parents_ok(n0.right_child, Some(n0.key)));
                    assert(avl_parents_ok(f.left_child, Some(f.key)));
                    assert(avl_children_linked(*node));
                }
                if avl_no_nil(Some(n0)) {
                    assert(avl_no_nil(*node));
                }
            }
            let ghost snap = *node;
            AVLTreeNode::fix_node(node);
            proof {
                if avl_children_linked(Some(n0)) {
                    assert(avl_children_linked(snap));
                }
                if avl_balanced(Some(n0)) {
                    let hl0 = avl_spec_height(n0.left_child);
                    let hr0 = avl_spec_height(n0.right_child);
                    let hl1 = avl_spec_height(avl_left_spec(snap));
                    assert(avl_right_spec(snap) == n0.right_child);
                    assert(avl_balanced(n0.left_child) && avl_balanced(n0.right_child));
                    assert(-1 <= hr0 - hl0 <= 1);
                    assert(hl0 - 1 <= hl1 <= hl0);
                    assert(avl_balanced(avl_left_spec(snap)));
                    assert(-2 <= hr0 - hl1 <= 2);
                    assert(avl_balanced(*node));
                    assert(avl_spec_height(Some(n0)) == 1 + h_max(hl0, hr0));
                    assert(h_max(hl1, hr0) >= h_max(hl0, hr0) - 1);
                    if -1 <= hr0 - hl1 <= 1 {
                        assert(avl_spec_height(*node) == 1 + h_max(hl1, hr0));
                    } else {
                        assert(hr0 == hl1 + 2);
                        assert(1 + h_max(hl1, hr0) == 1 + h_max(hl0, hr0));
                    }
                    assert(avl_spec_height(Some(n0)) - 1 <= avl_spec_height(*node));
                    assert(avl_spec_height(*node) <= avl_spec_height(Some(n0)));
                }
            }
            min_key
        } else {
            let min_key = n.key;
            proof {
                assert(avl_as_set(n0.left_child) =~= Set::<u64>::empty());
                assert(avl_as_set(Some(n0)) == avl_as_set(n0.left_child)
                    .union(avl_as_set(n0.right_child)).insert(n0.key));
                assert(forall|e: u64| avl_as_set(n0.right_child).contains(e) ==> e > n0.key);
            }
            match n.right_child.take() {
                Some(mut c) => {
                    let ghost c0 = c;
                    c.parent = n.parent;
                    *node = Some(c);
                    proof {
                        avl_lemma_root_fields(c0, (*node).unwrap());
                    }
                }
                None => {
                    *node = None;
                }
            }
            proof {
                assert(avl_as_set(*node) == avl_as_set(n0.right_child));
                assert(avl_as_set(*node) =~= avl_as_set(Some(n0)).remove(min_key));
                if avl_children_linked(Some(n0)) {
                    assert(avl_parents_ok(n0.right_child, Some(n0.key)));
                    assert(avl_children_linked(*node));
                }
                if avl_balanced(Some(n0)) {
                    assert(avl_spec_height(n0.left_child) == 0);
                    assert(avl_balanced(*node));
                    assert(avl_spec_height(Some(n0)) == 1 + avl_spec_height(n0.right_child));
                    assert(avl_spec_height(*node) == avl_spec_height(n0.right_child));
                }
            }
            min_key
        }
    }

    /// Structurally remove the node carrying `key` and re-balance every
    /// walked node on the way back up: a node with an absent or nil child
    /// is replaced by its other child, a node with two real children takes
    /// its in-order successor's key and the successor's node is removed
    /// instead.
    pub(crate) fn remove_bal(node: &mut AVLChild, key: u64)
        requires
            old(node).is_some(),
            avl_wf(*old(node)),
            avl_heights_ok(*old(node)),
            avl_as_set(*old(node)).contains(key),
            avl_size(*old(node)) <= SIZE_CAP,
        ensures
            *final(node) == avl_remove_key_spec(*old(node), key),
            avl_wf(*final(node)),
            avl_heights_ok(*final(node)),
            avl_as_set(*final(node)) =~= avl_as_set(*old(node)).remove(key),
            avl_size(*final(node)) <= avl_size(*old(node)),
            avl_children_linked(*old(node)) ==> avl_children_linked(*final(node)),
            final(node).is_some() ==> avl_root_parent_spec(*final(node)) == avl_root_parent_spec(*old(node)),
            avl_no_nil(*old(node)) ==> avl_no_nil(*final(node)),
            avl_balanced(*old(node)) ==> (avl_balanced(*final(node))
                && avl_spec_height(*old(node)) - 1 <= avl_spec_height(*final(node))
                && avl_spec_height(*final(node)) <= avl_spec_height(*old(node))),
        decreases *old(node),
    {
        let mut n = node.take().unwrap();
        let ghost n0 = n;
        proof {
            assert(!n0.is_nil);
        }
        if key < n.key {
            proof {
                assert(!avl_as_set(n0.right_child).contains(key));
                assert(avl_as_set(n0.left_child).contains(key));
            }
            if n.left_child.is_some() {
                AVLTreeNode::remove_bal(&mut n.left_child, key);
                *node = Some(n);
                proof {
                    let f = (*node).unwrap();
                    assert(avl_as_set(*node) =~= avl_as_set(Some(n0)).remove(key));
                    assert(avl_wf(*node));
                    if avl_children_linked(Some(n0)) {
                        assert(avl_parents_ok(n0.left_child, Some(n0.key)));
                        assert(avl_parents_ok(n0.right_child, Some(n0.key)));
                        assert(avl_parents_ok(f.left_child, Some(f.key)));
                        assert(avl_children_linked(*node));
                    }
                    if avl_no_nil(Some(n0)) {
                        assert(avl_no_nil(*node));
                    }
                }
                let ghost snap = *node;
                AVLTreeNode::fix_node(node);
                proof {
                    if avl_children_linked(Some(n0)) {
                        assert(avl_children_linked(snap));
                    }
                    if avl_balanced(Some(n0)) {
                        let hl0 = avl_spec_height(n0.left_child);
                        let hr0 = avl_spec_height(n0.right_child);
                        let hl1 = avl_spec_height(avl_left_spec(snap));
                        assert(avl_right_spec(snap) == n0.right_child);
                        assert(avl_balanced(n0.left_child) && avl_balanced(n0.right_child));
                        assert(-1 <= hr0 - hl0 <= 1);
                        assert(hl0 - 1 <= hl1 <= hl0);
                        assert(avl_balanced(avl_left_spec(snap)));
                        assert(-2 <= hr0 - hl1 <= 2);
                        assert(avl_balanced(*node));
                        assert(avl_spec_height(Some(n0)) == 1 + h_max(hl0, hr0));
                        assert(h_max(hl1, hr0) >= h_max(hl0, hr0) - 1);
                        if -1 <= hr0 - hl1 <= 1 {
                            assert(avl_spec_height(*node) == 1 + h_max(hl1, hr0));
                        } else {
                            assert(hr0 == hl1 + 2);
                            assert(1 + h_max(hl1, hr0) == 1 + h_max(hl0, hr0));
                        }
                        assert(avl_spec_height(Some(n0)) - 1 <= avl_spec_height(*node));
                        assert(avl_spec_height(*node) <= avl_spec_height(Some(n0)));
                    }
                }
            } else {
                proof {
                    assert(false);
                }
                *node = Some(n);
            }
        } else if key > n.key {
            proof {
                assert(!avl_as_set(n0.left_child).contains(key));
                assert(avl_as_set(n0.right_child).contains(key));
            }
            if n.right_child.is_some() {
                AVLTreeNode::remove_bal(&mut n.right_child, key);
                *node = Some(n);
                proof {
                    let f = (*node).unwrap();
                    assert(avl_as_set(*node) =~= avl_as_set(Some(n0)).remove(key));
                    assert(avl_wf(*node));
                    if avl_children_linked(Some(n0)) {
                        assert(avl_parents_ok(n0.left_child, Some(n0.key)));
                        assert(avl_parents_ok(n0.right_child, Some(n0.key)));
                        assert(avl_parents_ok(f.right_child, Some(f.key)));
                        assert(avl_children_linked(*node));
                    }
                    if avl_no_nil(Some(n0)) {
                        assert(avl_no_nil(*node));
                    }
                }
                let ghost snap = *node;
                AVLTreeNode::fix_node(node);
                proof {
                    if avl_children_linked(Some(n0)) {
                        assert(avl_children_linked(snap));
                    }
                    if avl_balanced(Some(n0)) {
                        let hl0 = avl_spec_height(n0.left_child);
                        let hr0 = avl_spec_height(n0.right_child);
                        let hr1 = avl_spec_height(avl_right_spec(snap));
                        assert(avl_left_spec(snap) == n0.left_child);
                        assert(avl_balanced(n0.left_child) && avl_balanced(n0.right_child));
                        assert(-1 <= hr0 - hl0 <= 1);
                        assert(hr0 - 1 <= hr1 <= hr0);
                        assert(avl_balanced(avl_right_spec(snap)));
                        assert(-2 <= hr1 - hl0 <= 2);
                        assert(avl_balanced(*node));
                        assert(avl_spec_height(Some(n0)) == 1 + h_max(hl0, hr0));
                        assert(h_max(hl0, hr1) >= h_max(hl0, hr0) - 1);
                        if -1 <= hr1 - hl0 <= 1 {
                            assert(avl_spec_height(*node) == 1 + h_max(hl0, hr1));
                        } else {
                            assert(hl0 == hr1 + 2);
                            assert(1 + h_max(hl0, hr1) == 1 + h_max(hl0, hr0));
                        }
                        assert(avl_spec_height(Some(n0)) - 1 <= avl_spec_height(*node));
                        assert(avl_spec_height(*node) <= avl_spec_height(Some(n0)));
                    }
                }
            } else {
                proof {
                    assert(false);
                }
                *node = Some(n);
            }
        } else {
            let left_nil = AVLTreeNode::get_root_nil(&n.left_child);
            let right_nil = AVLTreeNode::get_root_nil(&n.right_child);
            if left_nil {
                proof {
                    assert(avl_as_set(n0.left_child) =~= Set::<u64>::empty());
                    assert(forall|e: u64| avl_as_set(n0.right_child).contains(e) ==> e > n0.key);
                }
                match n.right_child.take() {
                    Some(mut c) => {
                        let ghost c0 = c;
                        c.parent = n.parent;
                        *node = Some(c);
                        proof {
                            avl_lemma_root_fields(c0, (*node).unwrap());
                        }
                    }
                    None => {
                        *node = None;
                    }
                }
                proof {
                    assert(avl_as_set(*node) == avl_as_set(n0.right_child));
                    assert(avl_as_set(*node) =~= avl_as_set(Some(n0)).remove(key));
                    if avl_children_linked(Some(n0)) {
                        assert(avl_parents_ok(n0.right_child, Some(n0.key)));
                        assert(avl_children_linked(*node));
                    }
                    if avl_balanced(Some(n0)) {
                        assert(avl_spec_height(n0.left_child) == 0);
                        assert(avl_balanced(*node));
                        assert(avl_spec_height(Some(n0)) == 1 + avl_spec_height(n0.right_child));
                        assert(avl_spec_height(*node) == avl_spec_height(n0.right_child));
                    }
                }
            } else if right_nil {
                proof {
                    assert(avl_as_set(n0.right_child) =~= Set::<u64>::empty());
                    assert(forall|e: u64| avl_as_set(n0.left_child).contains(e) ==> e < n0.key);
                }
                let mut c = n.left_child.take().unwrap();
                let ghost c0 = c;
                c.parent = n.parent;
                *node = Some(c);
                proof {
                    avl_lemma_root_fields(c0, (*node).unwrap());
                    assert(avl_as_set(*node) == avl_as_set(n0.left_child));
                    assert(avl_as_set(*node) =~= avl_as_set(Some(n0)).remove(key));
                    if avl_children_linked(Some(n0)) {
                        assert(avl_parents_ok(n0.left_child, Some(n0.key)));
                        assert(avl_children_linked(*node));
                    }
                }
            } else {
                // both children real: take the in-order successor's key and
                // remove the successor's node instead
                proof {
                    assert(avl_wf(n0.right_child));
                    assert(!n0.right_child.unwrap().is_nil);
                    avl_lemma_counts(n0.right_child);
                }
                let m_key = AVLTreeNode::extract_min_bal(&mut n.right_child);
                proof {
                    assert(avl_as_set(n0.right_child).contains(m_key));
                    assert(m_key > n0.key);
                }
                n.key = m_key;
                // the node was renamed: re-target its children's back
                // references, as every structural edit must
                match n.left_child.take() {
                    Some(mut c) => {
                        let ghost c0 = c;
                        c.parent = Some(m_key);
                        n.left_child = Some(c);
                        proof {
                            avl_lemma_root_fields(c0, n.left_child.unwrap());
                        }
                    }
                    None => {}
                }
                match n.right_child.take() {
                    Some(mut c) => {
                        let ghost c0 = c;
                        c.parent = Some(m_key);
                        n.right_child = Some(c);
                        proof {
                            avl_lemma_root_fields(c0, n.right_child.unwrap());
                        }
                    }
                    None => {}
                }
                *node = Some(n);
                proof {
                    let f = (*node).unwrap();
                    assert(avl_as_set(Some(n0)) == avl_as_set(n0.left_child)
                        .union(avl_as_set(n0.right_child)).insert(n0.key));
                    assert(avl_as_set(f.right_child) =~= avl_as_set(n0.right_child).remove(m_key));
                    assert(avl_as_set(*node) == avl_as_set(n0.left_child)
                        .union(avl_as_set(f.right_child)).insert(m_key));
                    assert(forall|e: u64| avl_as_set(n0.left_child).contains(e) ==> e < n0.key);
                    assert(forall|e: u64| avl_as_set(n0.right_child).contains(e) ==> m_key <= e);
                    assert(avl_as_set(*node) =~= avl_as_set(Some(n0)).remove(key));
                    assert(avl_wf(f.right_child));
                    assert(avl_wf(*node));
                    assert(avl_heights_ok(f.left_child));
                    assert(avl_heights_ok(f.right_child));
                    if avl_children_linked(Some(n0)) {
                        assert(avl_parents_ok(n0.left_child, Some(n0.key)));
                        assert(avl_parents_ok(n0.right_child, Some(n0.key)));
                        assert(avl_parents_ok(f.left_child, Some(f.key)));
                        assert(avl_parents_ok(f.right_child, Some(f.key)));
                        assert(avl_children_linked(*node));
                    }
                    if avl_no_nil(Some(n0)) {
                        assert(avl_no_nil(*node));
                    }
                }
                let ghost snap = *node;
                AVLTreeNode::fix_node(node);
                proof {
                    if avl_children_linked(Some(n0)) {
                        assert(avl_children_linked(snap));
                    }
                    if avl_balanced(Some(n0)) {
                        let hl0 = avl_spec_height(n0.left_child);
                        let hr0 = avl_spec_height(n0.right_child);
                        let hr1 = avl_spec_height(avl_right_spec(snap));
                        assert(avl_spec_height(avl_left_spec(snap)) == hl0);
                        assert(avl_balanced(n0.left_child) && avl_balanced(n0.right_child));
                        assert(avl_balanced(avl_left_spec(snap)));
                        assert(-1 <= hr0 - hl0 <= 1);
                        assert(hr0 - 1 <= hr1 <= hr0);
                        assert(avl_balanced(avl_right_spec(snap)));
                        assert(-2 <= hr1 - hl0 <= 2);
                        assert(avl_balanced(*node));
                        assert(avl_spec_height(Some(n0)) == 1 + h_max(hl0, hr0));
                        assert(h_max(hl0, hr1) >= h_max(hl0, hr0) - 1);
                        if -1 <= hr1 - hl0 <= 1 {
                            assert(avl_spec_height(*node) == 1 + h_max(hl0, hr1));
                        } else {
                            assert(hl0 == hr1 + 2);
                            assert(1 + h_max(hl0, hr1) == 1 + h_max(hl0, hr0));
                        }
                        assert(avl_spec_height(Some(n0)) - 1 <= avl_spec_height(*node));
                        assert(avl_spec_height(*node) <= avl_spec_height(Some(n0)));
                    }
                }
            }
        }
    }

    /// Walk the binary-search path of `key` and, on the way back up,
    /// refresh every walked node's cached height and re-balance it by the
    /// rotation table.
    pub(crate) fn walk_fix(node: &mut AVLChild, key: u64)
        requires
            avl_wf(*old(node)),
            avl_heights_ok_except(*old(node), key),
            avl_size(*old(node)) <= SIZE_CAP,
        ensures
            final(node).is_some() == old(node).is_some(),
            avl_wf(*final(node)),
            avl_heights_ok(*final(node)),
            avl_as_set(*final(node)) =~= avl_as_set(*old(node)),
            avl_size(*final(node)) == avl_size(*old(node)),
            avl_children_linked(*old(node)) ==> avl_children_linked(*final(node)),
            avl_root_parent_spec(*final(node)) == avl_root_parent_spec(*old(node)),
            avl_no_nil(*old(node)) ==> avl_no_nil(*final(node)),
            avl_balanced(*old(node)) ==> (avl_balanced(*final(node))
                && avl_spec_height(*final(node)) == avl_spec_height(*old(node))),
            avl_balanced_except(*old(node), key) ==> (avl_balanced(*final(node))
                && avl_spec_height(*old(node)) - 1 <= avl_spec_height(*final(node))
                && avl_spec_height(*final(node)) <= avl_spec_height(*old(node))),
        decreases *old(node),
    {
        let is_nil = AVLTreeNode::get_root_nil(node);
        if is_nil {
            // an absent subtree or a bare nil sentinel needs no work
            return;
        }
        let mut n = node.take().unwrap();
        let ghost n0 = n;
        if key < n.key {
            AVLTreeNode::walk_fix(&mut n.left_child, key);
        } else if key > n.key {
            AVLTreeNode::walk_fix(&mut n.right_child, key);
        }
        *node = Some(n);
        proof {
            let f = (*node).unwrap();
            assert(avl_as_set(*node) =~= avl_as_set(*old(node)));
            assert(avl_wf(*node));
            assert(avl_heights_ok(f.left_child));
            assert(avl_heights_ok(f.right_child));
            if avl_children_linked(Some(n0)) {
                assert(avl_parents_ok(n0.left_child, Some(n0.key)));
                assert(avl_parents_ok(n0.right_child, Some(n0.key)));
                assert(avl_parents_ok(f.left_child, Some(f.key)));
                assert(avl_parents_ok(f.right_child, Some(f.key)));
                assert(avl_children_linked(*node));
            }
            if avl_no_nil(*old(node)) {
                assert(avl_no_nil(*node));
            }
        }
        let ghost snap = *node;
        AVLTreeNode::fix_node(node);
        proof {
            if avl_children_linked(Some(n0)) {
                assert(avl_children_linked(snap));
            }
            if avl_balanced(*old(node)) {
                let hl0 = avl_spec_height(n0.left_child);
                let hr0 = avl_spec_height(n0.right_child);
                assert(avl_spec_height(avl_left_spec(snap)) == hl0);
                assert(avl_spec_height(avl_right_spec(snap)) == hr0);
                assert(avl_balanced(avl_left_spec(snap)) && avl_balanced(avl_right_spec(snap)));
                assert(-1 <= hr0 - hl0 <= 1);
                assert(avl_balanced(*node));
                assert(avl_spec_height(*node) == 1 + h_max(hl0, hr0));
                assert(avl_spec_height(Some(n0)) == 1 + h_max(hl0, hr0));
            }
            if avl_balanced_except(*old(node), key) {
                let hl0 = avl_spec_height(n0.left_child);
                let hr0 = avl_spec_height(n0.right_child);
                let l1 = avl_left_spec(snap);
                let r1 = avl_right_spec(snap);
                assert(avl_spec_height(Some(n0)) == 1 + h_max(hl0, hr0));
                if key < n0.key {
                    assert(avl_balanced(n0.right_child));
                    assert(avl_balanced_except(n0.left_child, key));
                    assert(r1 == n0.right_child);
                    assert(avl_balanced(l1));
                    assert(hl0 - 1 <= avl_spec_height(l1) <= hl0);
                    if avl_spec_bf(Some(n0)) == 2 || avl_spec_bf(Some(n0)) == -2 {
                        assert(avl_balanced(n0.left_child));
                        assert(avl_spec_height(l1) == hl0);
                    }
                    assert(-2 <= avl_spec_height(r1) - avl_spec_height(l1) <= 2);
                    assert(avl_balanced(*node));
                    assert(h_max(avl_spec_height(l1), hr0) >= h_max(hl0, hr0) - 1);
                    assert(avl_spec_height(Some(n0)) - 1 <= avl_spec_height(*node));
                    assert(avl_spec_height(*node) <= avl_spec_height(Some(n0)));
                } else if key > n0.key {
                    assert(avl_balanced(n0.left_child));
                    assert(avl_balanced_except(n0.right_child, key));
                    assert(l1 == n0.left_child);
                    assert(avl_balanced(r1));
                    assert(hr0 - 1 <= avl_spec_height(r1) <= hr0);
                    if avl_spec_bf(Some(n0)) == 2 || avl_spec_bf(Some(n0)) == -2 {
                        assert(avl_balanced(n0.right_child));
                        assert(avl_spec_height(r1) == hr0);
                    }
                    assert(-2 <= avl_spec_height(r1) - avl_spec_height(l1) <= 2);
                    assert(avl_balanced(*node));
                    assert(h_max(hl0, avl_spec_height(r1)) >= h_max(hl0, hr0) - 1);
                    assert(avl_spec_height(Some(n0)) - 1 <= avl_spec_height(*node));
                    assert(avl_spec_height(*node) <= avl_spec_height(Some(n0)));
                } else {
                    assert(avl_balanced(n0.left_child) && avl_balanced(n0.right_child));
                    assert(l1 == n0.left_child && r1 == n0.right_child);
                    assert(-2 <= hr0 - hl0 <= 2);
                    assert(avl_balanced(*node));
                    assert(avl_spec_height(Some(n0)) - 1 <= avl_spec_height(*node));
                    assert(avl_spec_height(*node) <= avl_spec_height(Some(n0)));
                }
            }
        }
    }
}

/// A found subtree's keys are among the tree's keys.
pub proof fn avl_lemma_find_subset(t: AVLChild, key: u64)
    requires
        avl_wf(t),
    ensures
        forall|e: u64| avl_as_set(avl_find(t, key)).contains(e) ==> avl_as_set(t).contains(e),
    decreases t,
{
    reveal_with_fuel(avl_find, 2);
    reveal_with_fuel(avl_as_set, 2);
    match t {
        None => {}
        Some(n) => {
            if !n.is_nil && key != n.key {
                if key < n.key {
                    avl_lemma_find_subset(n.left_child, key);
                    assert(avl_find(t, key) == avl_find(n.left_child, key));
                } else {
                    avl_lemma_find_subset(n.right_child, key);
                    assert(avl_find(t, key) == avl_find(n.right_child, key));
                }
            }
            if n.is_nil && key != n.key {
                assert(avl_find(t, key).is_none());
            }
        }
    }
    assert forall|e: u64| avl_as_set(avl_find(t, key)).contains(e)
        implies avl_as_set(t).contains(e) by {
        if t.is_some() {
            let n = t.unwrap();
            if !n.is_nil && key != n.key {
                if key < n.key {
                    assert(avl_as_set(avl_find(n.left_child, key)).contains(e));
                    assert(avl_as_set(n.left_child).contains(e));
                } else {
                    assert(avl_as_set(avl_find(n.right_child, key)).contains(e));
                    assert(avl_as_set(n.right_child).contains(e));
                }
            }
        }
    };
}

/// A found subtree of a well-formed tree is well-formed, and nil-free when
/// the tree is.
pub proof fn avl_lemma_find_wf(t: AVLChild, key: u64)
    requires
        avl_wf(t),
    ensures
        avl_wf(avl_find(t, key)),
        avl_no_nil(t) ==> avl_no_nil(avl_find(t, key)),
        avl_size(avl_find(t, key)) <= avl_size(t),
    decreases t,
{
    reveal_with_fuel(avl_find, 2);
    reveal_with_fuel(avl_wf, 2);
    reveal_with_fuel(avl_no_nil, 2);
    reveal_with_fuel(avl_size, 2);
    match t {
        None => {}
        Some(n) => {
            if !n.is_nil && key != n.key {
                if key < n.key {
                    avl_lemma_find_wf(n.left_child, key);
                    assert(avl_find(t, key) == avl_find(n.left_child, key));
                } else {
                    avl_lemma_find_wf(n.right_child, key);
                    assert(avl_find(t, key) == avl_find(n.right_child, key));
                }
            }
            if n.is_nil && key != n.key {
                assert(avl_find(t, key).is_none());
            }
        }
    }
}

/// In a tree whose back references are consistent, so are those below any
/// found subtree.
pub proof fn avl_lemma_find_linked(t: AVLChild, key: u64, pk: Option<u64>)
    requires
        avl_parents_ok(t, pk),
    ensures
        avl_children_linked(avl_find(t, key)),
    decreases t,
{
    reveal_with_fuel(avl_find, 2);
    match t {
        None => {}
        Some(n) => {
            if key != n.key {
                if key < n.key {
                    avl_lemma_find_linked(n.left_child, key, Some(n.key));
                } else {
                    avl_lemma_find_linked(n.right_child, key, Some(n.key));
                }
            }
        }
    }
}


impl AVLTreeNode {
    /// Detach and return the whole subtree rooted at the node carrying
    /// `key`, leaving an empty slot in its place.
    pub(crate) fn extract_subtree(node: &mut AVLChild, key: u64) -> (sub: AVLChild)
        requires
            avl_wf(*old(node)),
            avl_find(*old(node), key).is_some(),
        ensures
            sub == avl_find(*old(node), key),
            avl_wf(*final(node)),
            avl_as_set(*final(node)) =~= avl_as_set(*old(node)).difference(avl_as_set(sub)),
            avl_size(*final(node)) <= avl_size(*old(node)),
            avl_children_linked(*old(node)) ==> avl_children_linked(*final(node)),
            final(node).is_some() ==> avl_root_parent_spec(*final(node)) == avl_root_parent_spec(*old(node)),
            avl_no_nil(*old(node)) ==> avl_no_nil(*final(node)),
        decreases *old(node),
    {
        let mut n = node.take().unwrap();
        let ghost n0 = n;
        if key == n.key {
            *node = None;
            proof {
                assert(avl_as_set(*node) =~= avl_as_set(*old(node)).difference(avl_as_set(Some(n0))));
            }
            Some(n)
        } else if key < n.key {
            if n.left_child.is_some() {
                proof {
                    avl_lemma_find_subset(n0.left_child, key);
                }
                let sub = AVLTreeNode::extract_subtree(&mut n.left_child, key);
                *node = Some(n);
                proof {
                    let f = (*node).unwrap();
                    assert(forall|e: u64| avl_as_set(sub).contains(e)
                        ==> avl_as_set(n0.left_child).contains(e));
                    assert(forall|e: u64| avl_as_set(sub).contains(e) ==> e < n0.key);
                    assert(avl_as_set(Some(n0)) == avl_as_set(n0.left_child)
                        .union(avl_as_set(n0.right_child)).insert(n0.key));
                    assert(avl_as_set(*node) == avl_as_set(f.left_child)
                        .union(avl_as_set(n0.right_child)).insert(n0.key));
                    assert(avl_as_set(*node) =~= avl_as_set(*old(node)).difference(avl_as_set(sub)));
                    assert(avl_wf(*node));
                    if avl_children_linked(*old(node)) {
                        assert(avl_parents_ok(n0.left_child, Some(n0.key)));
                        assert(avl_parents_ok(n0.right_child, Some(n0.key)));
                        assert(avl_parents_ok(f.left_child, Some(f.key)));
                        assert(avl_children_linked(*node));
                    }
                }
                sub
            } else {
                proof {
                    assert(false);
                }
                *node = Some(n);
                None
            }
        } else {
            if n.right_child.is_some() {
                proof {
                    avl_lemma_find_subset(n0.right_child, key);
                }
                let sub = AVLTreeNode::extract_subtree(&mut n.right_child, key);
                *node = Some(n);
                proof {
                    let f = (*node).unwrap();
                    assert(forall|e: u64| avl_as_set(sub).contains(e)
                        ==> avl_as_set(n0.right_child).contains(e));
                    assert(forall|e: u64| avl_as_set(sub).contains(e) ==> e > n0.key);
                    assert(avl_as_set(Some(n0)) == avl_as_set(n0.left_child)
                        .union(avl_as_set(n0.right_child)).insert(n0.key));
                    assert(avl_as_set(*node) == avl_as_set(n0.left_child)
                        .union(avl_as_set(f.right_child)).insert(n0.key));
                    assert(avl_as_set(*node) =~= avl_as_set(*old(node)).difference(avl_as_set(sub)));
                    assert(avl_wf(*node));
                    if avl_children_linked(*old(node)) {
                        assert(avl_parents_ok(n0.left_child, Some(n0.key)));
                        assert(avl_parents_ok(n0.right_child, Some(n0.key)));
                        assert(avl_parents_ok(f.right_child, Some(f.key)));
                        assert(avl_children_linked(*node));
                    }
                }
                sub
            } else {
                proof {
                    assert(false);
                }
                *node = Some(n);
                None
            }
        }
    }

    /// Replace the subtree rooted at the node carrying `uk` with the
    /// subtree rooted at the node carrying `vk` (which must lie within it;
    /// `None` clears the slot), re-targeting the moved root's back
    /// reference.
    pub(crate) fn transplant_keys(node: &mut AVLChild, uk: u64, vk: Option<u64>)
        requires
            avl_wf(*old(node)),
            avl_find(*old(node), uk).is_some(),
            (vk matches Some(v) ==> avl_find(avl_find(*old(node), uk), v).is_some()),
        ensures
            *final(node) == avl_transplant_spec(*old(node), uk, vk),
            avl_wf(*final(node)),
            avl_as_set(*final(node)) =~= avl_as_set(*old(node))
                .difference(avl_as_set(avl_find(*old(node), uk)))
                .union(avl_as_set(match vk {
                    Some(v) => avl_find(avl_find(*old(node), uk), v),
                    None => None,
                })),
            avl_size(*final(node)) <= avl_size(*old(node)),
            avl_children_linked(*old(node)) ==> avl_children_linked(*final(node)),
            final(node).is_some() ==> avl_root_parent_spec(*final(node)) == avl_root_parent_spec(*old(node)),
            avl_no_nil(*old(node)) ==> avl_no_nil(*final(node)),
        decreases *old(node),
    {
        let mut n = node.take().unwrap();
        let ghost n0 = n;
        if uk == n.key {
            let u_parent = n.parent;
            let ghost usub0 = Some(n0);
            let mut usub = Some(n);
            let mut vsub: AVLChild = None;
            match vk {
                Some(v) => {
                    vsub = AVLTreeNode::extract_subtree(&mut usub, v);
                }
                None => {}
            }
            // the detached remainder of u's subtree is dropped
            match vsub {
                Some(mut c) => {
                    let ghost c0 = c;
                    c.parent = u_parent;
                    *node = Some(c);
                    proof {
                        avl_lemma_root_fields(c0, (*node).unwrap());
                    }
                }
                None => {
                    *node = None;
                }
            }
            proof {
                let vspec = (match vk {
                    Some(v) => avl_find(usub0, v),
                    None => None::<Box<AVLTreeNode>>,
                });
                assert(avl_as_set(*node) == avl_as_set(vspec));
                if vk.is_some() {
                    avl_lemma_find_subset(usub0, vk.unwrap());
                    avl_lemma_find_wf(usub0, vk.unwrap());
                }
                assert(avl_wf(*node));
                assert(avl_as_set(*node) =~= avl_as_set(*old(node))
                    .difference(avl_as_set(avl_find(*old(node), uk))).union(avl_as_set(vspec)));
                if avl_children_linked(*old(node)) {
                    avl_lemma_find_linked(usub0, (match vk { Some(v) => v, None => 0 }), avl_root_parent_spec(usub0));
                    assert(avl_children_linked(*node));
                }
                if avl_no_nil(*old(node)) {
                    avl_lemma_find_wf(usub0, (match vk { Some(v) => v, None => 0 }));
                    assert(avl_no_nil(*node));
                }
            }
        } else if uk < n.key {
            if n.left_child.is_some() {
                proof {
                    assert(avl_find(*old(node), uk) == avl_find(n0.left_child, uk));
                    avl_lemma_find_subset(n0.left_child, uk);
                    if vk.is_some() {
                        avl_lemma_find_wf(n0.left_child, uk);
                        avl_lemma_find_subset(avl_find(n0.left_child, uk), vk.unwrap());
                    }
                }
                AVLTreeNode::transplant_keys(&mut n.left_child, uk, vk);
                *node = Some(n);
                proof {
                    let f = (*node).unwrap();
                    let usub = avl_find(n0.left_child, uk);
                    let vspec = (match vk {
                        Some(v) => avl_find(usub, v),
                        None => None::<Box<AVLTreeNode>>,
                    });
                    assert(forall|e: u64| avl_as_set(usub).contains(e)
                        ==> avl_as_set(n0.left_child).contains(e));
                    assert(forall|e: u64| avl_as_set(vspec).contains(e)
                        ==> avl_as_set(usub).contains(e));
                    assert(forall|e: u64| avl_as_set(usub).contains(e) ==> e < n0.key);
                    assert(avl_as_set(Some(n0)) == avl_as_set(n0.left_child)
                        .union(avl_as_set(n0.right_child)).insert(n0.key));
                    assert(avl_as_set(*node) == avl_as_set(f.left_child)
                        .union(avl_as_set(n0.right_child)).insert(n0.key));
                    assert(avl_wf(*node));
                    assert(avl_as_set(*node) =~= avl_as_set(*old(node))
                        .difference(avl_as_set(avl_find(*old(node), uk)))
                        .union(avl_as_set(match vk {
                            Some(v) => avl_find(avl_find(*old(node), uk), v),
                            None => None,
                        })));
                    if avl_children_linked(*old(node)) {
                        assert(avl_parents_ok(n0.left_child, Some(n0.key)));
                        assert(avl_parents_ok(n0.right_child, Some(n0.key)));
                        assert(avl_parents_ok(f.left_child, Some(f.key)));
                        assert(avl_children_linked(*node));
                    }
                }
            } else {
                proof {
                    assert(false);
                }
                *node = Some(n);
            }
        } else {
            if n.right_child.is_some() {
                proof {
                    assert(avl_find(*old(node), uk) == avl_find(n0.right_child, uk));
                    avl_lemma_find_subset(n0.right_child, uk);
                    if vk.is_some() {
                        avl_lemma_find_wf(n0.right_child, uk);
                        avl_lemma_find_subset(avl_find(n0.right_child, uk), vk.unwrap());
                    }
                }
                AVLTreeNode::transplant_keys(&mut n.right_child, uk, vk);
                *node = Some(n);
                proof {
                    let f = (*node).unwrap();
                    let usub = avl_find(n0.right_child, uk);
                    let vspec = (match vk {
                        Some(v) => avl_find(usub, v),
                        None => None::<Box<AVLTreeNode>>,
                    });
                    assert(forall|e: u64| avl_as_set(usub).contains(e)
                        ==> avl_as_set(n0.right_child).contains(e));
                    assert(forall|e: u64| avl_as_set(vspec).contains(e)
                        ==> avl_as_set(usub).contains(e));
                    assert(forall|e: u64| avl_as_set(usub).contains(e) ==> e > n0.key);
                    assert(avl_as_set(Some(n0)) == avl_as_set(n0.left_child)
                        .union(avl_as_set(n0.right_child)).insert(n0.key));
                    assert(avl_as_set(*node) == avl_as_set(n0.left_child)
                        .union(avl_as_set(f.right_child)).insert(n0.key));
                    assert(avl_wf(*node));
                    assert(avl_as_set(*node) =~= avl_as_set(*old(node))
                        .difference(avl_as_set(avl_find(*old(node), uk)))
                        .union(avl_as_set(match vk {
                            Some(v) => avl_find(avl_find(*old(node), uk), v),
                            None => None,
                        })));
                    if avl_children_linked(*old(node)) {
                        assert(avl_parents_ok(n0.left_child, Some(n0.key)));
                        assert(avl_parents_ok(n0.right_child, Some(n0.key)));
                        assert(avl_parents_ok(f.right_child, Some(f.key)));
                        assert(avl_children_linked(*node));
                    }
                }
            } else {
                proof {
                    assert(false);
                }
                *node = Some(n);
            }
        }
    }

}

/// The in-order key sequence of a well-formed tree is strictly increasing
/// and holds exactly the tree's keys.
pub proof fn avl_lemma_inorder_sorted(t: AVLChild)
    requires
        avl_wf(t),
    ensures
        keys_sorted(avl_inorder(t)),
        forall|e: u64| avl_inorder(t).contains(e) <==> avl_as_set(t).contains(e),
    decreases t,
{
    match t {
        None => {
            assert(forall|e: u64| !avl_inorder(t).contains(e));
        }
        Some(n) => {
            avl_lemma_inorder_sorted(n.left_child);
            avl_lemma_inorder_sorted(n.right_child);
            if n.is_nil {
                assert(forall|e: u64| !avl_inorder(t).contains(e));
            } else {
                let a = avl_inorder(n.left_child);
                let c = avl_inorder(n.right_child);
                let s = avl_inorder(t);
                assert(s == a + seq![n.key] + c);
                assert forall|e: u64| s.contains(e) implies avl_as_set(t).contains(e) by {
                    let i = choose|i: int| 0 <= i < s.len() && s[i] == e;
                    if i < a.len() {
                        assert(a[i] == e);
                        assert(a.contains(e));
                    } else if i > a.len() {
                        assert(c[i - a.len() - 1] == e);
                        assert(c.contains(e));
                    }
                }
                assert forall|e: u64| avl_as_set(t).contains(e) implies s.contains(e) by {
                    if avl_as_set(n.left_child).contains(e) {
                        let i = choose|i: int| 0 <= i < a.len() && a[i] == e;
                        assert(s[i] == e);
                    } else if avl_as_set(n.right_child).contains(e) {
                        let i = choose|i: int| 0 <= i < c.len() && c[i] == e;
                        assert(s[a.len() + 1 + i] == e);
                    } else {
                        assert(s[a.len() as int] == n.key);
                    }
                }
                assert forall|i: int, j: int| 0 <= i < j < s.len() implies s[i] < s[j] by {
                    if j < a.len() {
                        assert(a[i] < a[j]);
                    } else if i > a.len() {
                        assert(c[i - a.len() - 1] < c[j - a.len() - 1]);
                    } else if i < a.len() && j == a.len() {
                        assert(a.contains(a[i]));
                        assert(avl_as_set(n.left_child).contains(a[i]));
                    } else if i < a.len() && j > a.len() {
                        assert(a.contains(a[i]));
                        assert(avl_as_set(n.left_child).contains(a[i]));
                        assert(c.contains(c[j - a.len() - 1]));
                        assert(avl_as_set(n.right_child).contains(c[j - a.len() - 1]));
                    } else {
                        assert(c.contains(c[j - a.len() - 1]));
                        assert(avl_as_set(n.right_child).contains(c[j - a.len() - 1]));
                    }
                }
            }
        }
    }
}

/// The node sitting at the end of a path of child edges.
pub open spec fn avl_node_at(t: AVLChild, path: Seq<Direction>) -> AVLChild
    decreases path.len(),
{
    if path.len() == 0 {
        t
    } else {
        match t {
            None => None,
            Some(n) => {
                if path[0] == Direction::Left {
                    avl_node_at(n.left_child, path.drop_first())
                } else {
                    avl_node_at(n.right_child, path.drop_first())
                }
            }
        }
    }
}

/// Back-pointer consistency: every non-root node names its owning parent,
/// and it sits in exactly one of that parent's child slots.
pub proof fn avl_lemma_parent_child(t: AVLChild, path: Seq<Direction>, pk: Option<u64>)
    requires
        avl_wf(t),
        avl_no_nil(t),
        avl_parents_ok(t, pk),
        path.len() > 0,
        avl_node_at(t, path).is_some(),
    ensures
        avl_node_at(t, path.drop_last()).is_some(),
        avl_node_at(t, path).unwrap().parent
            == Some(avl_node_at(t, path.drop_last()).unwrap().key),
        (path.last() == Direction::Left ==> avl_node_at(t, path.drop_last()).unwrap().left_child
            == avl_node_at(t, path)),
        (path.last() == Direction::Right ==> avl_node_at(t, path.drop_last()).unwrap().right_child
            == avl_node_at(t, path)),
        !(avl_node_at(t, path.drop_last()).unwrap().left_child == avl_node_at(t, path)
            && avl_node_at(t, path.drop_last()).unwrap().right_child == avl_node_at(t, path)),
    decreases path.len(),
{
    let n = t.unwrap();
    if path.len() == 1 {
        assert(path.drop_last() =~= Seq::<Direction>::empty());
        assert(avl_node_at(t, path.drop_last()) == t);
        let child = avl_node_at(t, path);
        assert(child == (if path[0] == Direction::Left { n.left_child } else { n.right_child }));
        assert(avl_parents_ok(child, Some(n.key)));
        assert(avl_no_nil(child));
        assert(!child.unwrap().is_nil);
        assert(child.unwrap().parent == Some(n.key));
        let ck = child.unwrap().key;
        assert(avl_as_set(child).contains(ck));
        if n.left_child == child && n.right_child == child {
            assert(avl_as_set(n.left_child).contains(ck));
            assert(avl_as_set(n.right_child).contains(ck));
            assert(false);
        }
    } else {
        let sub = (if path[0] == Direction::Left { n.left_child } else { n.right_child });
        assert(avl_node_at(t, path) == avl_node_at(sub, path.drop_first()));
        avl_lemma_parent_child(sub, path.drop_first(), Some(n.key));
        assert(path.drop_first().drop_last() =~= path.drop_last().drop_first());
        assert(path.drop_first().last() == path.last());
        assert(avl_node_at(t, path.drop_last()) == avl_node_at(sub, path.drop_last().drop_first()));
    }
}

/// The Fibonacci numbers: the worst-case node counts of the AVL shapes.
pub open spec fn avl_fib(n: nat) -> nat
    decreases n,
{
    if n == 0 {
        0
    } else if n == 1 {
        1
    } else {
        avl_fib((n - 1) as nat) + avl_fib((n - 2) as nat)
    }
}

/// Fibonacci numbers never shrink.
pub proof fn avl_lemma_fib_mono(a: nat, b: nat)
    requires
        a <= b,
    ensures
        avl_fib(a) <= avl_fib(b),
    decreases b,
{
    if a < b && b >= 2 {
        avl_lemma_fib_mono(a, (b - 1) as nat);
        avl_lemma_fib_mono((b - 2) as nat, (b - 1) as nat);
    } else if a < b && b == 1 {
        assert(avl_fib(0) == 0);
    }
}

/// A tree that keeps every balance factor within one holds at least
/// `fib(height + 2) - 1` nodes: the height is logarithmic in the node
/// count, in exact integer form.
pub proof fn avl_lemma_min_size(t: AVLChild)
    requires
        avl_balanced(t),
    ensures
        avl_fib(avl_spec_height(t) + 2) <= avl_size(t) + 1,
    decreases t,
{
    reveal_with_fuel(avl_fib, 3);
    match t {
        None => {
            assert(avl_fib(2) == 1);
        }
        Some(n) => {
            if n.is_nil {
                assert(avl_fib(2) == 1);
            } else {
                avl_lemma_min_size(n.left_child);
                avl_lemma_min_size(n.right_child);
                let hl = avl_spec_height(n.left_child);
                let hr = avl_spec_height(n.right_child);
                let h = avl_spec_height(t);
                assert(h == 1 + h_max(hl, hr));
                assert(avl_fib(h + 2) == avl_fib(h_max(hl, hr) + 2) + avl_fib(h_max(hl, hr) + 1));
                if hl >= hr {
                    avl_lemma_fib_mono(h_max(hl, hr) + 1, hr + 2);
                } else {
                    avl_lemma_fib_mono(h_max(hl, hr) + 1, hl + 2);
                }
            }
        }
    }
}

/// One line of the human-readable tree dump: the slot's depth and side, and
/// the node's attributes (`key` is `None` for an empty or nil slot;
/// `solidified` marks a materialised nil sentinel).
#[derive(Clone, Copy, Debug, PartialEq, Eq)]
pub struct AVLPrintRow {
    pub depth: u64,
    pub direction: Direction,
    pub key: Option<u64>,
    pub parent: Option<u64>,
    pub solidified: bool,
}

/// The rows of the tree dump, in preorder.
pub open spec fn avl_print_rows(t: AVLChild, depth: int, dir: Direction) -> Seq<AVLPrintRow>
    decreases t,
{
    match t {
        None => seq![AVLPrintRow {
            depth: depth as u64,
            direction: dir,
            key: None,
            parent: None,
            solidified: false,
        }],
        Some(n) => {
            if n.is_nil {
                seq![AVLPrintRow {
                    depth: depth as u64,
                    direction: dir,
                    key: None,
                    parent: n.parent,
                    solidified: true,
                }]
            } else {
                seq![AVLPrintRow {
                    depth: depth as u64,
                    direction: dir,
                    key: Some(n.key),
                    parent: n.parent,
                    solidified: false,
                }] + avl_print_rows(n.left_child, depth + 1, Direction::Left)
                    + avl_print_rows(n.right_child, depth + 1, Direction::Right)
            }
        }
    }
}

impl AVLTreeNode {
    /// Check balance and cached heights below this subtree and compute its
    /// recomputed height.
    pub(crate) fn check_balance(t: &AVLChild) -> (r: (bool, u128))
        requires
            avl_size(*t) <= SIZE_CAP,
        ensures
            r.0 == (avl_balanced(*t) && avl_heights_ok(*t)),
            r.1 == avl_spec_height(*t),
        decreases t,
    {
        match t {
            None => (true, 0),
            Some(n) => {
                if n.is_nil {
                    (true, 0)
                } else {
                    let lres = AVLTreeNode::check_balance(&n.left_child);
                    let rres = AVLTreeNode::check_balance(&n.right_child);
                    proof {
                        avl_lemma_counts(n.left_child);
                        avl_lemma_counts(n.right_child);
                    }
                    let h = 1 + if lres.1 >= rres.1 { lres.1 } else { rres.1 };
                    let ok = lres.0 && rres.0
                        && lres.1 <= rres.1 + 1 && rres.1 <= lres.1 + 1
                        && n.height == h;
                    (ok, h)
                }
            }
        }
    }

    /// The tree dump as structured rows, one per node in preorder, with a
    /// marker row for every empty or nil child slot.
    pub fn print_tree(root: &AVLChild) -> (r: Vec<AVLPrintRow>)
        requires
            avl_spec_height(*root) <= SIZE_CAP,
        ensures
            r@ == avl_print_rows(*root, 0, Direction::Left),
    {
        let mut out: Vec<AVLPrintRow> = Vec::new();
        AVLTreeNode::print_rows_rec(root, 0, Direction::Left, &mut out);
        proof {
            assert(out@ =~= avl_print_rows(*root, 0, Direction::Left));
        }
        out
    }

    fn print_rows_rec(t: &AVLChild, depth: u64, dir: Direction, out: &mut Vec<AVLPrintRow>)
        requires
            depth + avl_spec_height(*t) <= SIZE_CAP,
        ensures
            final(out)@ =~= old(out)@ + avl_print_rows(*t, depth as int, dir),
        decreases t,
    {
        match t {
            None => {
                out.push(AVLPrintRow {
                    depth,
                    direction: dir,
                    key: None,
                    parent: None,
                    solidified: false,
                });
            }
            Some(n) => {
                if n.is_nil {
                    out.push(AVLPrintRow {
                        depth,
                        direction: dir,
                        key: None,
                        parent: n.parent,
                        solidified: true,
                    });
                } else {
                    out.push(AVLPrintRow {
                        depth,
                        direction: dir,
                        key: Some(n.key),
                        parent: n.parent,
                        solidified: false,
                    });
                    AVLTreeNode::print_rows_rec(&n.left_child, depth + 1, Direction::Left, out);
                    AVLTreeNode::print_rows_rec(&n.right_child, depth + 1, Direction::Right, out);
                }
            }
        }
    }
}

/// Left child of the subtree's root.
pub open spec fn avl_left_spec(t: AVLChild) -> AVLChild {
    match t {
        None => None,
        Some(n) => n.left_child,
    }
}

/// Right child of the subtree's root.
pub open spec fn avl_right_spec(t: AVLChild) -> AVLChild {
    match t {
        None => None,
        Some(n) => n.right_child,
    }
}

} // verus!
