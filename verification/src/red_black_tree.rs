//! Red-black tree node graph: the node record, parent/child linkage and the
//! structural helpers the balancer is built from.
//!
//! Children are owning edges (`Option<Box<..>>`); the parent back reference
//! is the parent's key (keys are unique), re-targeted whenever a structural
//! edge moves. Nil sentinels (`is_nil`) exist only inside the deletion
//! bracket; every specification prunes them, so a nil node contributes no
//! keys, no height and no leaves.

use vstd::prelude::*;

verus! {

/// Trees larger than this cannot be built in memory anyway; the cap keeps
/// every count and height computation far away from integer overflow.
pub const SIZE_CAP: u64 = 0x4000_0000_0000_0000;

#[derive(Clone, Copy, Debug, PartialEq, Eq, Structural)]
pub enum NodeColor {
    Red,
    Black,
}

impl NodeColor {
    /// Flip Red to Black and Black to Red, in place.
    pub fn recolor(&mut self)
        ensures
            *old(self) == NodeColor::Red ==> *final(self) == NodeColor::Black,
            *old(self) == NodeColor::Black ==> *final(self) == NodeColor::Red,
    {
        match self {
            NodeColor::Red => { *self = NodeColor::Black; }
            NodeColor::Black => { *self = NodeColor::Red; }
        }
    }
}

#[derive(Clone, Copy, Debug, PartialEq, Eq, Structural)]
pub enum Direction {
    Left,
    Right,
}

pub type RBTChild = Option<Box<RBTreeNode>>;

pub struct RBTreeNode {
    pub color: NodeColor,
    pub key: u64,
    pub parent: Option<u64>,
    pub left_child: RBTChild,
    pub right_child: RBTChild,
    pub is_nil: bool,
}

/// The set of keys held by the real (non-nil) nodes of the subtree.
pub open spec fn rb_as_set(t: RBTChild) -> Set<u64>
    decreases t,
{
    match t {
        None => Set::empty(),
        Some(n) => {
            if n.is_nil {
                Set::empty()
            } else {
                rb_as_set(n.left_child).union(rb_as_set(n.right_child)).insert(n.key)
            }
        }
    }
}

/// Binary-search-tree order over the real nodes, plus: a nil sentinel is
/// always a leaf.
pub open spec fn rb_wf(t: RBTChild) -> bool
    decreases t,
{
    match t {
        None => true,
        Some(n) => {
            if n.is_nil {
                n.left_child.is_none() && n.right_child.is_none()
            } else {
                &&& (forall|e: u64| rb_as_set(n.left_child).contains(e) ==> e < n.key)
                &&& (forall|e: u64| rb_as_set(n.right_child).contains(e) ==> e > n.key)
                &&& rb_wf(n.left_child)
                &&& rb_wf(n.right_child)
            }
        }
    }
}

/// Every node's parent back reference equals `pk` at the root of `t` and the
/// owning node's key below it.
pub open spec fn rb_parents_ok(t: RBTChild, pk: Option<u64>) -> bool
    decreases t,
{
    match t {
        None => true,
        Some(n) => {
            &&& n.parent == pk
            &&& rb_parents_ok(n.left_child, Some(n.key))
            &&& rb_parents_ok(n.right_child, Some(n.key))
        }
    }
}

/// `rb_parents_ok` for both children, leaving the root's own back reference
/// unconstrained; convenient for operations that keep the root's parent.
pub open spec fn rb_children_linked(t: RBTChild) -> bool {
    match t {
        None => true,
        Some(n) => {
            rb_parents_ok(n.left_child, Some(n.key)) && rb_parents_ok(n.right_child, Some(n.key))
        }
    }
}

/// No nil sentinel anywhere: the state outside the deletion bracket.
pub open spec fn rb_no_nil(t: RBTChild) -> bool
    decreases t,
{
    match t {
        None => true,
        Some(n) => !n.is_nil && rb_no_nil(n.left_child) && rb_no_nil(n.right_child),
    }
}

/// Number of real (non-nil) nodes.
pub open spec fn rb_size(t: RBTChild) -> nat
    decreases t,
{
    match t {
        None => 0,
        Some(n) => {
            if n.is_nil {
                0
            } else {
                1 + rb_size(n.left_child) + rb_size(n.right_child)
            }
        }
    }
}

/// Height of the subtree; absent and nil children contribute 0.
pub open spec fn rb_spec_height(t: RBTChild) -> nat
    decreases t,
{
    match t {
        None => 0,
        Some(n) => {
            if n.is_nil {
                0
            } else if rb_spec_height(n.left_child) >= rb_spec_height(n.right_child) {
                1 + rb_spec_height(n.left_child)
            } else {
                1 + rb_spec_height(n.right_child)
            }
        }
    }
}

/// Number of leaves: a real leaf node counts one, a nil sentinel counts
/// none.
pub open spec fn rb_spec_leaves(t: RBTChild) -> nat
    decreases t,
{
    match t {
        None => 0,
        Some(n) => {
            if n.is_nil {
                0
            } else if rb_is_leaf_spec(t) {
                1
            } else {
                rb_spec_leaves(n.left_child) + rb_spec_leaves(n.right_child)
            }
        }
    }
}

/// In-order key sequence of the real nodes.
pub open spec fn rb_inorder(t: RBTChild) -> Seq<u64>
    decreases t,
{
    match t {
        None => Seq::empty(),
        Some(n) => {
            if n.is_nil {
                Seq::empty()
            } else {
                rb_inorder(n.left_child) + seq![n.key] + rb_inorder(n.right_child)
            }
        }
    }
}

/// The subtree whose root carries `key`, by binary-search descent.
pub open spec fn rb_find(t: RBTChild, key: u64) -> RBTChild
    decreases t,
{
    match t {
        None => None,
        Some(n) => {
            if key == n.key {
                t
            } else if key < n.key {
                rb_find(n.left_child, key)
            } else {
                rb_find(n.right_child, key)
            }
        }
    }
}

/// Whether the subtree's root is a leaf: a real node with both child slots
/// empty, or with both children materialised as nil sentinels.
pub open spec fn rb_is_leaf_spec(t: RBTChild) -> bool {
    match t {
        None => false,
        Some(n) => {
            (n.left_child.is_none() && n.right_child.is_none())
            || (match (n.left_child, n.right_child) {
                (Some(l), Some(r)) => l.is_nil && r.is_nil,
                _ => false,
            })
        }
    }
}

/// Colour of the subtree's root; an absent child reads Black.
pub open spec fn rb_root_color_spec(t: RBTChild) -> NodeColor {
    match t {
        None => NodeColor::Black,
        Some(n) => n.color,
    }
}

/// Nil-ness of the subtree's root; an absent child reads nil.
pub open spec fn rb_root_nil_spec(t: RBTChild) -> bool {
    match t {
        None => true,
        Some(n) => n.is_nil,
    }
}

/// What holds of a fresh childless node.
pub proof fn rb_lemma_new_node(key: u64, color: NodeColor, parent: Option<u64>, is_nil: bool)
    ensures
        rb_wf(rb_new_node_spec(key, color, parent, is_nil)),
        !is_nil ==> rb_as_set(rb_new_node_spec(key, color, parent, is_nil)) =~= Set::empty().insert(key),
        is_nil ==> rb_as_set(rb_new_node_spec(key, color, parent, is_nil)) =~= Set::<u64>::empty(),
        rb_no_nil(rb_new_node_spec(key, color, parent, is_nil)) == !is_nil,
        rb_parents_ok(rb_new_node_spec(key, color, parent, is_nil), parent),
        rb_children_linked(rb_new_node_spec(key, color, parent, is_nil)),
        rb_size(rb_new_node_spec(key, color, parent, is_nil)) == (if is_nil { 0int } else { 1int }),
        rb_spec_height(rb_new_node_spec(key, color, parent, is_nil)) == (if is_nil { 0int } else { 1int }),
        rb_inorder(rb_new_node_spec(key, color, parent, is_nil)) == (if is_nil { Seq::<u64>::empty() } else { seq![key] }),
        is_nil ==> rb_solid(rb_new_node_spec(key, color, parent, is_nil)),
{
    reveal_with_fuel(rb_wf, 2);
    reveal_with_fuel(rb_no_nil, 2);
    reveal_with_fuel(rb_solid, 2);
    reveal_with_fuel(rb_parents_ok, 2);
    reveal_with_fuel(rb_size, 2);
    reveal_with_fuel(rb_as_set, 2);
    reveal_with_fuel(rb_spec_height, 2);
    reveal_with_fuel(rb_inorder, 2);
    if is_nil {
        assert(rb_inorder(rb_new_node_spec(key, color, parent, is_nil)) =~= Seq::<u64>::empty());
    } else {
        assert(rb_inorder(rb_new_node_spec(key, color, parent, is_nil)) =~= seq![key]);
    }
}

/// Leaves and height never exceed the node count.
pub proof fn rb_lemma_counts(t: RBTChild)
    ensures
        rb_spec_leaves(t) <= rb_size(t),
        rb_spec_height(t) <= rb_size(t),
    decreases t,
{
    match t {
        None => {}
        Some(n) => {
            rb_lemma_counts(n.left_child);
            rb_lemma_counts(n.right_child);
        }
    }
}

impl RBTreeNode {
    /// The empty tree.
    pub fn empty() -> (r: RBTChild)
        ensures
            r.is_none(),
    {
        None
    }

    /// A fresh Black root carrying `key`.
    pub fn new(key: u64) -> (r: RBTChild)
        ensures
            r == rb_new_node_spec(key, NodeColor::Black, None, false),
            rb_wf(r) && rb_no_nil(r) && rb_parents_ok(r, None),
            rb_as_set(r) =~= Set::empty().insert(key),
            rb_size(r) == 1,
    {
        let r = RBTreeNode::new_node(key, NodeColor::Black, None, false);
        proof {
            rb_lemma_new_node(key, NodeColor::Black, None, false);
        }
        r
    }

    fn new_node(key: u64, color: NodeColor, parent: Option<u64>, is_nil: bool) -> (r: RBTChild)
        ensures
            r == rb_new_node_spec(key, color, parent, is_nil),
    {
        Some(Box::new(RBTreeNode {
            color,
            key,
            parent,
            left_child: None,
            right_child: None,
            is_nil,
        }))
    }

    /// Colour of the subtree's root (Black for an absent child).
    pub fn get_root_color(root: &RBTChild) -> (r: NodeColor)
        ensures
            r == rb_root_color_spec(*root),
    {
        match root {
            Some(n) => n.color,
            None => NodeColor::Black,
        }
    }

    /// Whether the subtree's root is a nil sentinel (an absent child is).
    pub fn get_root_nil(root: &RBTChild) -> (r: bool)
        ensures
            r == rb_root_nil_spec(*root),
    {
        match root {
            Some(n) => n.is_nil,
            None => true,
        }
    }

    /// Key of the subtree's root.
    pub fn get_root_key(root: &RBTChild) -> (r: u64)
        requires
            root.is_some(),
        ensures
            r == root.unwrap().key,
    {
        match root {
            Some(n) => n.key,
            None => 0,
        }
    }

    /// Recolour the subtree's root.
    pub fn set_root_color(root: &mut RBTChild, color: NodeColor)
        requires
            old(root).is_some(),
        ensures
            final(root).is_some(),
            final(root).unwrap().color == color,
            final(root).unwrap().key == old(root).unwrap().key,
            final(root).unwrap().parent == old(root).unwrap().parent,
            final(root).unwrap().is_nil == old(root).unwrap().is_nil,
            final(root).unwrap().left_child == old(root).unwrap().left_child,
            final(root).unwrap().right_child == old(root).unwrap().right_child,
    {
        let mut n = root.take().unwrap();
        n.color = color;
        *root = Some(n);
    }

    fn clone_tree(t: &RBTChild) -> (r: RBTChild)
        ensures
            r == *t,
        decreases t,
    {
        match t {
            None => None,
            Some(n) => Some(Box::new(RBTreeNode {
                color: n.color,
                key: n.key,
                parent: n.parent,
                left_child: RBTreeNode::clone_tree(&n.left_child),
                right_child: RBTreeNode::clone_tree(&n.right_child),
                is_nil: n.is_nil,
            })),
        }
    }

    /// A detached copy of the left child subtree.
    pub fn get_left(root: &RBTChild) -> (r: RBTChild)
        ensures
            r == rb_left_spec(*root),
    {
        match root {
            Some(n) => RBTreeNode::clone_tree(&n.left_child),
            None => None,
        }
    }

    /// A detached copy of the right child subtree.
    pub fn get_right(root: &RBTChild) -> (r: RBTChild)
        ensures
            r == rb_right_spec(*root),
    {
        match root {
            Some(n) => RBTreeNode::clone_tree(&n.right_child),
            None => None,
        }
    }

    /// Whether the subtree's root holds no real subtree: both child slots
    /// empty, or both materialised as nil sentinels.
    pub fn is_leaf(root: &RBTChild) -> (r: bool)
        ensures
            r == rb_is_leaf_spec(*root),
    {
        match root {
            Some(n) => {
                let both_empty = n.left_child.is_none() && n.right_child.is_none();
                let both_nil = match (&n.left_child, &n.right_child) {
                    (Some(l), Some(rr)) => l.is_nil && rr.is_nil,
                    _ => false,
                };
                both_empty || both_nil
            }
            None => false,
        }
    }

    /// Handle equality: two empty handles are equal, two non-empty handles
    /// are equal exactly when their root keys agree (handles are logical
    /// keys here, so key equality is node identity).
    pub fn is_node_equal(root1: &RBTChild, root2: &RBTChild) -> (r: bool)
        ensures
            r == (match (*root1, *root2) {
                (None, None) => true,
                (Some(n1), Some(n2)) => n1.key == n2.key,
                _ => false,
            }),
    {
        match (root1, root2) {
            (None, None) => true,
            (Some(n1), Some(n2)) => n1.key == n2.key,
            _ => false,
        }
    }

    /// A detached copy of the subtree whose root carries `key`.
    pub fn find_node(root: &RBTChild, key: u64) -> (r: RBTChild)
        ensures
            r == rb_find(*root, key),
        decreases root,
    {
        match root {
            None => None,
            Some(n) => {
                if key == n.key {
                    RBTreeNode::clone_tree(root)
                } else if key < n.key {
                    RBTreeNode::find_node(&n.left_child, key)
                } else {
                    RBTreeNode::find_node(&n.right_child, key)
                }
            }
        }
    }

    /// Colour of the node carrying `key` (Black when absent).
    pub fn get_color(root: &RBTChild, key: u64) -> (r: NodeColor)
        ensures
            r == rb_root_color_spec(rb_find(*root, key)),
        decreases root,
    {
        match root {
            None => NodeColor::Black,
            Some(n) => {
                if key == n.key {
                    n.color
                } else if key < n.key {
                    RBTreeNode::get_color(&n.left_child, key)
                } else {
                    RBTreeNode::get_color(&n.right_child, key)
                }
            }
        }
    }

    /// A detached copy of the parent of the node carrying `key`.
    pub fn get_parent(root: &RBTChild, key: u64) -> (r: RBTChild)
        ensures
            r == rb_parent_spec(*root, key),
        decreases root,
    {
        match root {
            None => None,
            Some(n) => {
                if key == n.key {
                    None
                } else if key < n.key {
                    let hit = match &n.left_child {
                        Some(l) => l.key == key,
                        None => false,
                    };
                    if hit {
                        RBTreeNode::clone_tree(root)
                    } else {
                        RBTreeNode::get_parent(&n.left_child, key)
                    }
                } else {
                    let hit = match &n.right_child {
                        Some(l) => l.key == key,
                        None => false,
                    };
                    if hit {
                        RBTreeNode::clone_tree(root)
                    } else {
                        RBTreeNode::get_parent(&n.right_child, key)
                    }
                }
            }
        }
    }

    /// A detached copy of the parent of the node carrying `key`.
    pub fn get_parent_by_key(root: &RBTChild, key: u64) -> (r: RBTChild)
        ensures
            r == rb_parent_spec(*root, key),
    {
        RBTreeNode::get_parent(root, key)
    }

    /// A detached copy of the subtree rooted at the leftmost non-nil node.
    pub fn get_minimum(root: &RBTChild) -> (r: RBTChild)
        requires
            root.is_some(),
        ensures
            r == rb_min_spec(*root),
        decreases root,
    {
        match root {
            None => None,
            Some(n) => {
                match &n.left_child {
                    Some(l) => {
                        if l.is_nil {
                            RBTreeNode::clone_tree(root)
                        } else {
                            RBTreeNode::get_minimum(&n.left_child)
                        }
                    }
                    None => RBTreeNode::clone_tree(root),
                }
            }
        }
    }

    /// Number of leaves of the subtree.
    pub fn count_leaves(root: &RBTChild) -> (r: u128)
        requires
            rb_size(*root) <= SIZE_CAP,
        ensures
            r == rb_spec_leaves(*root),
        decreases root,
    {
        if RBTreeNode::get_root_nil(root) {
            return 0;
        }
        if RBTreeNode::is_leaf(root) {
            return 1;
        }
        match root {
            Some(n) => {
                proof {
                    rb_lemma_counts(n.left_child);
                    rb_lemma_counts(n.right_child);
                }
                RBTreeNode::count_leaves(&n.left_child) + RBTreeNode::count_leaves(&n.right_child)
            }
            None => 0,
        }
    }

    /// Height of the subtree, recomputed recursively.
    pub fn get_height(root: &RBTChild) -> (r: u128)
        requires
            rb_size(*root) <= SIZE_CAP,
        ensures
            r == rb_spec_height(*root),
        decreases root,
    {
        if RBTreeNode::get_root_nil(root) {
            return 0;
        }
        match root {
            Some(n) => {
                proof {
                    rb_lemma_counts(n.left_child);
                    rb_lemma_counts(n.right_child);
                }
                let lh = RBTreeNode::get_height(&n.left_child);
                let rh = RBTreeNode::get_height(&n.right_child);
                if lh >= rh {
                    1 + lh
                } else {
                    1 + rh
                }
            }
            None => 0,
        }
    }

    /// Rewrite the root node's parent back reference to name the root of
    /// `parent` (or clear it).
    pub fn set_parent(root: &mut RBTChild, parent: &RBTChild)
        ensures
            old(root).is_none() ==> final(root).is_none(),
            old(root).is_some() ==> final(root).is_some()
                && final(root).unwrap().parent == rb_root_key_opt(*parent)
                && final(root).unwrap().key == old(root).unwrap().key
                && final(root).unwrap().color == old(root).unwrap().color
                && final(root).unwrap().is_nil == old(root).unwrap().is_nil
                && final(root).unwrap().left_child == old(root).unwrap().left_child
                && final(root).unwrap().right_child == old(root).unwrap().right_child,
    {
        match root.take() {
            Some(mut n) => {
                n.parent = match parent {
                    Some(p) => Some(p.key),
                    None => None,
                };
                *root = Some(n);
            }
            None => {}
        }
    }

    /// Write `child` into the chosen child slot; does not touch the child's
    /// parent back reference.
    pub fn set_child(root: &mut RBTChild, child: RBTChild, direction: Direction)
        requires
            old(root).is_some(),
        ensures
            final(root).is_some(),
            final(root).unwrap().key == old(root).unwrap().key,
            final(root).unwrap().color == old(root).unwrap().color,
            final(root).unwrap().parent == old(root).unwrap().parent,
            final(root).unwrap().is_nil == old(root).unwrap().is_nil,
            direction == Direction::Left ==> final(root).unwrap().left_child == child
                && final(root).unwrap().right_child == old(root).unwrap().right_child,
            direction == Direction::Right ==> final(root).unwrap().right_child == child
                && final(root).unwrap().left_child == old(root).unwrap().left_child,
    {
        let mut n = root.take().unwrap();
        match direction {
            Direction::Left => { n.left_child = child; }
            Direction::Right => { n.right_child = child; }
        }
        *root = Some(n);
    }

    /// Materialise a nil sentinel in the chosen child slot, carrying the
    /// root's key as a filler and the root as its parent.
    pub fn set_child_nil(root: &mut RBTChild, direction: Direction)
        requires
            old(root).is_some(),
        ensures
            final(root).is_some(),
            final(root).unwrap().key == old(root).unwrap().key,
            final(root).unwrap().color == old(root).unwrap().color,
            final(root).unwrap().parent == old(root).unwrap().parent,
            final(root).unwrap().is_nil == old(root).unwrap().is_nil,
            direction == Direction::Left ==> final(root).unwrap().left_child
                == rb_new_node_spec(old(root).unwrap().key, NodeColor::Black, Some(old(root).unwrap().key), true)
                && final(root).unwrap().right_child == old(root).unwrap().right_child,
            direction == Direction::Right ==> final(root).unwrap().right_child
                == rb_new_node_spec(old(root).unwrap().key, NodeColor::Black, Some(old(root).unwrap().key), true)
                && final(root).unwrap().left_child == old(root).unwrap().left_child,
    {
        let mut n = root.take().unwrap();
        let nil_node = RBTreeNode::new_node(n.key, NodeColor::Black, Some(n.key), true);
        match direction {
            Direction::Left => { n.left_child = nil_node; }
            Direction::Right => { n.right_child = nil_node; }
        }
        *root = Some(n);
    }

    /// Materialise a nil sentinel in every empty child slot of the subtree.
    pub fn solidify_all_nil(root: &mut RBTChild)
        requires
            old(root).is_some(),
            rb_wf(*old(root)),
            rb_no_nil(*old(root)),
            rb_children_linked(*old(root)),
        ensures
            *final(root) == rb_solidify_spec(*old(root)),
            final(root).is_some(),
            rb_wf(*final(root)),
            rb_solid(*final(root)),
            rb_children_linked(*final(root)),
            rb_as_set(*final(root)) =~= rb_as_set(*old(root)),
            rb_size(*final(root)) == rb_size(*old(root)),
            final(root).unwrap().key == old(root).unwrap().key,
            final(root).unwrap().color == old(root).unwrap().color,
            final(root).unwrap().parent == old(root).unwrap().parent,
            final(root).unwrap().is_nil == old(root).unwrap().is_nil,
        decreases *old(root),
    {
        let mut n = root.take().unwrap();
        proof {
            assert(rb_children_linked(n.left_child)) by {
                if n.left_child.is_some() {
                    assert(rb_parents_ok(n.left_child, Some(n.key)));
                }
            }
            assert(rb_children_linked(n.right_child)) by {
                if n.right_child.is_some() {
                    assert(rb_parents_ok(n.right_child, Some(n.key)));
                }
            }
        }
        if n.left_child.is_none() {
            n.left_child = RBTreeNode::new_node(n.key, NodeColor::Black, Some(n.key), true);
            proof {
                rb_lemma_new_node(n.key, NodeColor::Black, Some(n.key), true);
            }
        } else {
            RBTreeNode::solidify_all_nil(&mut n.left_child);
        }
        if n.right_child.is_none() {
            n.right_child = RBTreeNode::new_node(n.key, NodeColor::Black, Some(n.key), true);
            proof {
                rb_lemma_new_node(n.key, NodeColor::Black, Some(n.key), true);
            }
        } else {
            RBTreeNode::solidify_all_nil(&mut n.right_child);
        }
        proof {
            assert(rb_parents_ok(n.left_child, Some(n.key)));
            assert(rb_parents_ok(n.right_child, Some(n.key)));
            let o = old(root).unwrap();
            assert(rb_as_set(None::<Box<RBTreeNode>>) =~= Set::<u64>::empty());
            assert(rb_size(None::<Box<RBTreeNode>>) == 0);
            assert(rb_as_set(n.left_child) == rb_as_set(o.left_child));
            assert(rb_as_set(n.right_child) == rb_as_set(o.right_child));
            assert(rb_size(n.left_child) == rb_size(o.left_child));
            assert(rb_size(n.right_child) == rb_size(o.right_child));
            assert(rb_as_set(Some(n)) =~= rb_as_set(*old(root)));
            assert(rb_size(Some(n)) == rb_size(*old(root)));
        }
        *root = Some(n);
    }

    /// Replace every nil-flagged child with an empty slot again.
    pub fn virtualize_all_nil(root: &mut RBTChild)
        requires
            old(root).is_some(),
            rb_wf(*old(root)),
            !old(root).unwrap().is_nil,
        ensures
            *final(root) == rb_virtualize_spec(*old(root)),
            final(root).is_some(),
            rb_wf(*final(root)),
            rb_no_nil(*final(root)),
            rb_as_set(*final(root)) =~= rb_as_set(*old(root)),
            rb_size(*final(root)) == rb_size(*old(root)),
            final(root).unwrap().key == old(root).unwrap().key,
            final(root).unwrap().color == old(root).unwrap().color,
            final(root).unwrap().parent == old(root).unwrap().parent,
            final(root).unwrap().is_nil == old(root).unwrap().is_nil,
            rb_children_linked(*old(root)) ==> rb_children_linked(*final(root)),
        decreases *old(root),
    {
        let mut n = root.take().unwrap();
        let ghost linked = rb_children_linked(Some(n));
        proof {
            if linked {
                assert(rb_parents_ok(n.left_child, Some(n.key)));
                assert(rb_parents_ok(n.right_child, Some(n.key)));
            }
        }
        let left_nil = RBTreeNode::get_root_nil(&n.left_child);
        if left_nil {
            n.left_child = None;
            proof {
                assert(rb_as_set(None::<Box<RBTreeNode>>) =~= Set::<u64>::empty());
            }
        } else {
            RBTreeNode::virtualize_all_nil(&mut n.left_child);
        }
        let right_nil = RBTreeNode::get_root_nil(&n.right_child);
        if right_nil {
            n.right_child = None;
            proof {
                assert(rb_as_set(None::<Box<RBTreeNode>>) =~= Set::<u64>::empty());
            }
        } else {
            RBTreeNode::virtualize_all_nil(&mut n.right_child);
        }
        proof {
            if linked {
                assert(rb_parents_ok(n.left_child, Some(n.key)));
                assert(rb_parents_ok(n.right_child, Some(n.key)));
            }
            assert(rb_no_nil(None::<Box<RBTreeNode>>));
            assert(rb_wf(None::<Box<RBTreeNode>>));
            assert(rb_size(None::<Box<RBTreeNode>>) == 0);
            let o = old(root).unwrap();
            assert(rb_as_set(n.left_child) == rb_as_set(o.left_child));
            assert(rb_as_set(n.right_child) == rb_as_set(o.right_child));
            assert(rb_size(n.left_child) == rb_size(o.left_child));
            assert(rb_size(n.right_child) == rb_size(o.right_child));
            assert(rb_no_nil(Some(n)));
            assert(rb_wf(Some(n)));
        }
        *root = Some(n);
    }

    /// Insert a fresh Red leaf carrying `key` by binary-search descent; a
    /// no-op when `key` is already present or the subtree is empty.
    pub fn insert_node(root: &mut RBTChild, key: u64)
        requires
            rb_wf(*old(root)),
            rb_no_nil(*old(root)),
            rb_size(*old(root)) < SIZE_CAP,
        ensures
            *final(root) == rb_insert_spec(*old(root), key),
            rb_wf(*final(root)),
            rb_no_nil(*final(root)),
            old(root).is_none() ==> final(root).is_none(),
            old(root).is_some() ==> final(root).is_some()
                && (rb_as_set(*final(root)) =~= rb_as_set(*old(root)).insert(key))
                && final(root).unwrap().key == old(root).unwrap().key
                && final(root).unwrap().color == old(root).unwrap().color
                && final(root).unwrap().parent == old(root).unwrap().parent
                && (rb_children_linked(*old(root)) ==> rb_children_linked(*final(root))),
            rb_size(*final(root)) <= rb_size(*old(root)) + 1,
            rb_as_set(*old(root)).contains(key) ==> *final(root) == *old(root),
    {
        if root.is_some() {
            RBTreeNode::insert_rec(root, key);
        }
    }

    fn insert_rec(root: &mut RBTChild, key: u64)
        requires
            old(root).is_some(),
            rb_wf(*old(root)),
            rb_no_nil(*old(root)),
        ensures
            *final(root) == rb_insert_spec(*old(root), key),
            final(root).is_some(),
            rb_wf(*final(root)),
            rb_no_nil(*final(root)),
            rb_as_set(*final(root)) =~= rb_as_set(*old(root)).insert(key),
            final(root).unwrap().key == old(root).unwrap().key,
            final(root).unwrap().color == old(root).unwrap().color,
            final(root).unwrap().parent == old(root).unwrap().parent,
            rb_children_linked(*old(root)) ==> rb_children_linked(*final(root)),
            rb_size(*final(root)) <= rb_size(*old(root)) + 1,
            rb_as_set(*old(root)).contains(key) ==> *final(root) == *old(root),
        decreases *old(root),
    {
        let mut n = root.take().unwrap();
        if key == n.key {
        } else if key < n.key {
            proof {
                assert(!rb_as_set(n.right_child).contains(key));
                if rb_as_set(*old(root)).contains(key) {
                    assert(rb_as_set(n.left_child).contains(key));
                }
            }
            if n.left_child.is_some() {
                RBTreeNode::insert_rec(&mut n.left_child, key);
            } else {
                n.left_child = RBTreeNode::new_node(key, NodeColor::Red, Some(n.key), false);
                proof {
                    rb_lemma_new_node(key, NodeColor::Red, Some(n.key), false);
                }
            }
        } else {
            proof {
                assert(!rb_as_set(n.left_child).contains(key));
                if rb_as_set(*old(root)).contains(key) {
                    assert(rb_as_set(n.right_child).contains(key));
                }
            }
            if n.right_child.is_some() {
                RBTreeNode::insert_rec(&mut n.right_child, key);
            } else {
                n.right_child = RBTreeNode::new_node(key, NodeColor::Red, Some(n.key), false);
                proof {
                    rb_lemma_new_node(key, NodeColor::Red, Some(n.key), false);
                }
            }
        }
        *root = Some(n);
    }

    /// Whether `key` is held by a real node of the subtree.
    pub fn contains_key(root: &RBTChild, key: u64) -> (r: bool)
        requires
            rb_wf(*root),
            rb_no_nil(*root),
        ensures
            r == rb_as_set(*root).contains(key),
        decreases root,
    {
        match root {
            None => false,
            Some(n) => {
                if key == n.key {
                    true
                } else if key < n.key {
                    proof {
                        assert(!rb_as_set(n.right_child).contains(key));
                    }
                    RBTreeNode::contains_key(&n.left_child, key)
                } else {
                    proof {
                        assert(!rb_as_set(n.left_child).contains(key));
                    }
                    RBTreeNode::contains_key(&n.right_child, key)
                }
            }
        }
    }

    /// Key of the parent of the node carrying `key`, if there is one.
    pub(crate) fn parent_key_of(root: &RBTChild, key: u64) -> (r: Option<u64>)
        ensures
            r == rb_root_key_opt(rb_parent_spec(*root, key)),
        decreases root,
    {
        match root {
            None => None,
            Some(n) => {
                if key == n.key {
                    None
                } else if key < n.key {
                    let hit = match &n.left_child {
                        Some(l) => l.key == key,
                        None => false,
                    };
                    if hit {
                        Some(n.key)
                    } else {
                        RBTreeNode::parent_key_of(&n.left_child, key)
                    }
                } else {
                    let hit = match &n.right_child {
                        Some(l) => l.key == key,
                        None => false,
                    };
                    if hit {
                        Some(n.key)
                    } else {
                        RBTreeNode::parent_key_of(&n.right_child, key)
                    }
                }
            }
        }
    }

    /// Summary of the child of the node carrying `key`: whether a real node
    /// stands there, its key, and its colour (an absent child reads Black).
    pub(crate) fn child_info(root: &RBTChild, key: u64, dir: Direction) -> (r: (bool, u64, NodeColor))
        ensures
            r.0 == (rb_child_spec(*root, key, dir).is_some()
                && !rb_child_spec(*root, key, dir).unwrap().is_nil),
            r.0 ==> r.1 == rb_child_spec(*root, key, dir).unwrap().key,
            r.2 == rb_root_color_spec(rb_child_spec(*root, key, dir)),
        decreases root,
    {
        match root {
            None => (false, 0, NodeColor::Black),
            Some(n) => {
                if key == n.key {
                    let c = match dir {
                        Direction::Left => &n.left_child,
                        Direction::Right => &n.right_child,
                    };
                    match c {
                        None => (false, 0, NodeColor::Black),
                        Some(ch) => (!ch.is_nil, ch.key, ch.color),
                    }
                } else if key < n.key {
                    RBTreeNode::child_info(&n.left_child, key, dir)
                } else {
                    RBTreeNode::child_info(&n.right_child, key, dir)
                }
            }
        }
    }

    /// Recolour the node carrying `key`; a no-op when `key` is absent.
    pub(crate) fn set_color_by_key(root: &mut RBTChild, key: u64, color: NodeColor)
        requires
            rb_wf(*old(root)),
        ensures
            *final(root) == rb_with_color(*old(root), key, color),
            final(root).is_some() == old(root).is_some(),
            rb_wf(*final(root)),
            rb_as_set(*final(root)) =~= rb_as_set(*old(root)),
            rb_size(*final(root)) == rb_size(*old(root)),
            rb_no_nil(*old(root)) ==> rb_no_nil(*final(root)),
            rb_children_linked(*old(root)) ==> rb_children_linked(*final(root)),
            rb_root_key_opt(*final(root)) == rb_root_key_opt(*old(root)),
            rb_root_parent_spec(*final(root)) == rb_root_parent_spec(*old(root)),
            rb_root_key_opt(*old(root)) == Some(key) ==> rb_root_color_spec(*final(root)) == color,
        decreases *old(root),
    {
        match root.take() {
            None => {}
            Some(mut n) => {
                let ghost n0 = n;
                if key == n.key {
                    n.color = color;
                } else if key < n.key {
                    RBTreeNode::set_color_by_key(&mut n.left_child, key, color);
                } else {
                    RBTreeNode::set_color_by_key(&mut n.right_child, key, color);
                }
                *root = Some(n);
                proof {
                    let f = (*root).unwrap();
                    assert(rb_as_set(*root) =~= rb_as_set(*old(root)));
                    if rb_children_linked(*old(root)) {
                        assert(rb_parents_ok(n0.left_child, Some(n0.key)));
                        assert(rb_parents_ok(n0.right_child, Some(n0.key)));
                        assert(rb_parents_ok(f.left_child, Some(f.key)));
                        assert(rb_parents_ok(f.right_child, Some(f.key)));
                    }
                }
            }
        }
    }

    /// Recolour the `dir` child of the node carrying `key` (nil children
    /// included); a no-op when no such child exists.
    pub(crate) fn set_child_color(root: &mut RBTChild, key: u64, dir: Direction, color: NodeColor)
        requires
            rb_wf(*old(root)),
        ensures
            *final(root) == rb_with_child_color(*old(root), key, dir, color),
            final(root).is_some() == old(root).is_some(),
            rb_wf(*final(root)),
            rb_as_set(*final(root)) =~= rb_as_set(*old(root)),
            rb_size(*final(root)) == rb_size(*old(root)),
            rb_no_nil(*old(root)) ==> rb_no_nil(*final(root)),
            rb_children_linked(*old(root)) ==> rb_children_linked(*final(root)),
            rb_root_key_opt(*final(root)) == rb_root_key_opt(*old(root)),
            rb_root_parent_spec(*final(root)) == rb_root_parent_spec(*old(root)),
        decreases *old(root),
    {
        match root.take() {
            None => {}
            Some(mut n) => {
                let ghost n0 = n;
                if key == n.key {
                    match dir {
                        Direction::Left => {
                            match n.left_child.take() {
                                None => {}
                                Some(mut c) => {
                                    let ghost c0 = c;
                                    c.color = color;
                                    n.left_child = Some(c);
                                    proof {
                                        rb_lemma_root_fields(c0, n.left_child.unwrap());
                                    }
                                }
                            }
                        }
                        Direction::Right => {
                            match n.right_child.take() {
                                None => {}
                                Some(mut c) => {
                                    let ghost c0 = c;
                                    c.color = color;
                                    n.right_child = Some(c);
                                    proof {
                                        rb_lemma_root_fields(c0, n.right_child.unwrap());
                                    }
                                }
                            }
                        }
                    }
                } else if key < n.key {
                    RBTreeNode::set_child_color(&mut n.left_child, key, dir, color);
                } else {
                    RBTreeNode::set_child_color(&mut n.right_child, key, dir, color);
                }
                *root = Some(n);
                proof {
                    let f = (*root).unwrap();
                    assert(rb_as_set(f.left_child) == rb_as_set(n0.left_child));
                    assert(rb_as_set(f.right_child) == rb_as_set(n0.right_child));
                    assert(rb_wf(f.left_child));
                    assert(rb_wf(f.right_child));
                    assert(rb_as_set(*root) =~= rb_as_set(*old(root)));
                    if rb_children_linked(*old(root)) {
                        assert(rb_parents_ok(n0.left_child, Some(n0.key)));
                        assert(rb_parents_ok(n0.right_child, Some(n0.key)));
                        assert(rb_parents_ok(f.left_child, Some(f.key)));
                        assert(rb_parents_ok(f.right_child, Some(f.key)));
                    }
                }
            }
        }
    }

    /// Left rotation around the node carrying `key`; returns the possibly
    /// changed root. A no-op when `key` is absent or the node's right child
    /// is absent or nil.
    pub fn left_rotate(root: RBTChild, key: u64) -> (r: RBTChild)
        requires
            root.is_some(),
            rb_wf(root),
        ensures
            r == rb_rotate_spec(root, key, Direction::Left),
            r.is_some(),
            rb_wf(r),
            rb_as_set(r) =~= rb_as_set(root),
            rb_size(r) == rb_size(root),
            rb_no_nil(root) ==> rb_no_nil(r),
            rb_children_linked(root) ==> rb_children_linked(r),
            rb_root_parent_spec(r) == rb_root_parent_spec(root),
    {
        let mut t = root;
        RBTreeNode::rotate_rec(&mut t, key, Direction::Left);
        t
    }

    /// Right rotation around the node carrying `key`; returns the possibly
    /// changed root. A no-op when `key` is absent or the node's left child
    /// is absent or nil.
    pub fn right_rotate(root: RBTChild, key: u64) -> (r: RBTChild)
        requires
            root.is_some(),
            rb_wf(root),
        ensures
            r == rb_rotate_spec(root, key, Direction::Right),
            r.is_some(),
            rb_wf(r),
            rb_as_set(r) =~= rb_as_set(root),
            rb_size(r) == rb_size(root),
            rb_no_nil(root) ==> rb_no_nil(r),
            rb_children_linked(root) ==> rb_children_linked(r),
            rb_root_parent_spec(r) == rb_root_parent_spec(root),
    {
        let mut t = root;
        RBTreeNode::rotate_rec(&mut t, key, Direction::Right);
        t
    }

    /// Remove the leftmost real node, replacing it with its right child.
    /// Returns its key, its colour, and `Some(parent key)` when the removed
    /// node was not this subtree's root (the hole is that parent's left
    /// slot); `None` when the hole is this subtree's root slot.
    pub(crate) fn extract_min(node: &mut RBTChild) -> (r: (u64, NodeColor, Option<u64>))
        requires
            old(node).is_some(),
            !old(node).unwrap().is_nil,
            rb_wf(*old(node)),
        ensures
            *final(node) == rb_extract_min_spec(*old(node)).0,
            r.0 == rb_extract_min_spec(*old(node)).1,
            r.1 == rb_extract_min_spec(*old(node)).2,
            r.2 == rb_extract_min_spec(*old(node)).3,
            rb_wf(*final(node)),
            rb_as_set(*old(node)).contains(r.0),
            forall|e: u64| rb_as_set(*old(node)).contains(e) ==> r.0 <= e,
            rb_as_set(*final(node)) =~= rb_as_set(*old(node)).remove(r.0),
            rb_size(*final(node)) <= rb_size(*old(node)),
            rb_children_linked(*old(node)) ==> rb_children_linked(*final(node)),
            final(node).is_some() ==> rb_root_parent_spec(*final(node)) == rb_root_parent_spec(*old(node)),
            rb_no_nil(*old(node)) ==> rb_no_nil(*final(node)),
        decreases *old(node),
    {
        let mut n = node.take().unwrap();
        let ghost n0 = n;
        let left_real = match &n.left_child {
            Some(l) => !l.is_nil,
            None => false,
        };
        if left_real {
            let res = RBTreeNode::extract_min(&mut n.left_child);
            let translated = match res.2 {
                None => Some(n.key),
                Some(pk) => Some(pk),
            };
            *node = Some(n);
            proof {
                let f = (*node).unwrap();
                assert(rb_as_set(Some(n0)) == rb_as_set(n0.left_child)
                    .union(rb_as_set(n0.right_child)).insert(n0.key));
                assert(rb_as_set(*node) == rb_as_set(f.left_child)
                    .union(rb_as_set(n0.right_child)).insert(n0.key));
                assert(rb_as_set(n0.left_child).contains(res.0));
                assert(res.0 < n0.key);
                assert(forall|e: u64| rb_as_set(n0.right_child).contains(e) ==> res.0 <= e);
                assert(rb_as_set(*node) =~= rb_as_set(Some(n0)).remove(res.0));
                assert(rb_wf(*node));
                if rb_children_linked(Some(n0)) {
                    assert(rb_parents_ok(n0.left_child, Some(n0.key)));
                    assert(rb_parents_ok(n0.right_child, Some(n0.key)));
                    assert(rb_parents_ok(f.left_child, Some(f.key)));
                    assert(rb_children_linked(*node));
                }
                if rb_no_nil(Some(n0)) {
                    assert(rb_no_nil(*node));
                }
            }
            (res.0, res.1, translated)
        } else {
            let min_key = n.key;
            let min_color = n.color;
            match n.right_child.take() {
                Some(mut c) => {
                    let ghost c0 = c;
                    c.parent = n.parent;
                    *node = Some(c);
                    proof {
                        rb_lemma_root_fields(c0, (*node).unwrap());
                    }
                }
                None => {
                    *node = None;
                }
            }
            proof {
                assert(rb_as_set(n0.left_child) =~= Set::<u64>::empty());
                assert(rb_as_set(Some(n0)) == rb_as_set(n0.left_child)
                    .union(rb_as_set(n0.right_child)).insert(n0.key));
                assert(rb_as_set(*node) == rb_as_set(n0.right_child));
                assert(forall|e: u64| rb_as_set(n0.right_child).contains(e) ==> e > n0.key);
                assert(rb_as_set(*node) =~= rb_as_set(Some(n0)).remove(min_key));
                if rb_children_linked(Some(n0)) {
                    assert(rb_parents_ok(n0.right_child, Some(n0.key)));
                    assert(rb_children_linked(*node));
                }
            }
            (min_key, min_color, None)
        }
    }

    /// Structurally remove the node carrying `key`: a node with an absent or
    /// nil child is replaced by its other child, a node with two real
    /// children takes its in-order successor's key and the successor's node
    /// is removed instead. Returns the colour of the removed node and the
    /// absolute hole address (parent key and side); `None` means the hole is
    /// the root slot of this subtree.
    pub(crate) fn remove_key(node: &mut RBTChild, key: u64) -> (r: (NodeColor, Option<(u64, Direction)>))
        requires
            old(node).is_some(),
            rb_wf(*old(node)),
            rb_as_set(*old(node)).contains(key),
        ensures
            *final(node) == rb_remove_key_spec(*old(node), key).0,
            r.0 == rb_remove_key_spec(*old(node), key).1,
            r.1 == rb_remove_key_spec(*old(node), key).2,
            rb_wf(*final(node)),
            rb_as_set(*final(node)) =~= rb_as_set(*old(node)).remove(key),
            rb_size(*final(node)) <= rb_size(*old(node)),
            rb_children_linked(*old(node)) ==> rb_children_linked(*final(node)),
            final(node).is_some() ==> rb_root_parent_spec(*final(node)) == rb_root_parent_spec(*old(node)),
        decreases *old(node),
    {
        let mut n = node.take().unwrap();
        let ghost n0 = n;
        proof {
            assert(!n0.is_nil);
        }
        if key < n.key {
            proof {
                assert(!rb_as_set(n0.right_child).contains(key));
                assert(rb_as_set(n0.left_child).contains(key));
            }
            if n.left_child.is_some() {
                let res = RBTreeNode::remove_key(&mut n.left_child, key);
                let hole = match res.1 {
                    None => Some((n.key, Direction::Left)),
                    Some(a) => Some(a),
                };
                *node = Some(n);
                proof {
                    let f = (*node).unwrap();
                    assert(rb_as_set(*node) =~= rb_as_set(Some(n0)).remove(key));
                    assert(rb_wf(*node));
                    if rb_children_linked(Some(n0)) {
                        assert(rb_parents_ok(n0.left_child, Some(n0.key)));
                        assert(rb_parents_ok(n0.right_child, Some(n0.key)));
                        assert(rb_parents_ok(f.left_child, Some(f.key)));
                        assert(rb_children_linked(*node));
                    }
                }
                (res.0, hole)
            } else {
                proof {
                    assert(false);
                }
                *node = Some(n);
                (NodeColor::Black, None)
            }
        } else if key > n.key {
            proof {
                assert(!rb_as_set(n0.left_child).contains(key));
                assert(rb_as_set(n0.right_child).contains(key));
            }
            if n.right_child.is_some() {
                let res = RBTreeNode::remove_key(&mut n.right_child, key);
                let hole = match res.1 {
                    None => Some((n.key, Direction::Right)),
                    Some(a) => Some(a),
                };
                *node = Some(n);
                proof {
                    let f = (*node).unwrap();
                    assert(rb_as_set(*node) =~= rb_as_set(Some(n0)).remove(key));
                    assert(rb_wf(*node));
                    if rb_children_linked(Some(n0)) {
                        assert(rb_parents_ok(n0.left_child, Some(n0.key)));
                        assert(rb_parents_ok(n0.right_child, Some(n0.key)));
                        assert(rb_parents_ok(f.right_child, Some(f.key)));
                        assert(rb_children_linked(*node));
                    }
                }
                (res.0, hole)
            } else {
                proof {
                    assert(false);
                }
                *node = Some(n);
                (NodeColor::Black, None)
            }
        } else {
            let left_nil = RBTreeNode::get_root_nil(&n.left_child);
            let right_nil = RBTreeNode::get_root_nil(&n.right_child);
            if left_nil {
                let y_color = n.color;
                proof {
                    assert(rb_as_set(n0.left_child) =~= Set::<u64>::empty());
                    assert(forall|e: u64| rb_as_set(n0.right_child).contains(e) ==> e > n0.key);
                }
                match n.right_child.take() {
                    Some(mut c) => {
                        let ghost c0 = c;
                        c.parent = n.parent;
                        *node = Some(c);
                        proof {
                            rb_lemma_root_fields(c0, (*node).unwrap());
                        }
                    }
                    None => {
                        *node = None;
                    }
                }
                proof {
                    assert(rb_as_set(*node) == rb_as_set(n0.right_child));
                    assert(rb_as_set(*node) =~= rb_as_set(Some(n0)).remove(key));
                    if rb_children_linked(Some(n0)) {
                        assert(rb_parents_ok(n0.right_child, Some(n0.key)));
                        assert(rb_children_linked(*node));
                    }
                }
                (y_color, None)
            } else if right_nil {
                let y_color = n.color;
                proof {
                    assert(rb_as_set(n0.right_child) =~= Set::<u64>::empty());
                    assert(forall|e: u64| rb_as_set(n0.left_child).contains(e) ==> e < n0.key);
                }
                let mut c = n.left_child.take().unwrap();
                let ghost c0 = c;
                c.parent = n.parent;
                *node = Some(c);
                proof {
                    rb_lemma_root_fields(c0, (*node).unwrap());
                    assert(rb_as_set(*node) == rb_as_set(n0.left_child));
                    assert(rb_as_set(*node) =~= rb_as_set(Some(n0)).remove(key));
                    if rb_children_linked(Some(n0)) {
                        assert(rb_parents_ok(n0.left_child, Some(n0.key)));
                        assert(rb_children_linked(*node));
                    }
                }
                (y_color, None)
            } else {
                // both children real: take the in-order successor's key and
                // remove the successor's node instead
                proof {
                    assert(rb_wf(n0.right_child));
                    assert(!n0.right_child.unwrap().is_nil);
                }
                let res = RBTreeNode::extract_min(&mut n.right_child);
                let m_key = res.0;
                let m_color = res.1;
                proof {
                    assert(rb_as_set(n0.right_child).contains(m_key));
                    assert(m_key > n0.key);
                }
                n.key = m_key;
                // the node was renamed: re-target its children's back
                // references, as every structural edit must
                match n.left_child.take() {
                    Some(mut c) => {
                        let ghost c0 = c;
                        c.parent = Some(m_key);
                        n.left_child = Some(c);
                        proof {
                            rb_lemma_root_fields(c0, n.left_child.unwrap());
                        }
                    }
                    None => {}
                }
                match n.right_child.take() {
                    Some(mut c) => {
                        let ghost c0 = c;
                        c.parent = Some(m_key);
                        n.right_child = Some(c);
                        proof {
                            rb_lemma_root_fields(c0, n.right_child.unwrap());
                        }
                    }
                    None => {}
                }
                let hole = match res.2 {
                    None => Some((m_key, Direction::Right)),
                    Some(pk) => Some((pk, Direction::Left)),
                };
                *node = Some(n);
                proof {
                    let f = (*node).unwrap();
                    assert(rb_as_set(Some(n0)) == rb_as_set(n0.left_child)
                        .union(rb_as_set(n0.right_child)).insert(n0.key));
                    assert(rb_as_set(f.right_child) =~= rb_as_set(n0.right_child).remove(m_key));
                    assert(rb_as_set(*node) == rb_as_set(n0.left_child)
                        .union(rb_as_set(f.right_child)).insert(m_key));
                    assert(forall|e: u64| rb_as_set(n0.left_child).contains(e) ==> e < n0.key);
                    assert(forall|e: u64| rb_as_set(n0.right_child).contains(e) ==> m_key <= e);
                    assert(rb_as_set(*node) =~= rb_as_set(Some(n0)).remove(key));
                    assert(rb_wf(f.right_child));
                    assert(rb_wf(*node));
                    if rb_children_linked(Some(n0)) {
                        assert(rb_parents_ok(n0.left_child, Some(n0.key)));
                        assert(rb_parents_ok(n0.right_child, Some(n0.key)));
                        assert(rb_parents_ok(f.left_child, Some(f.key)));
                        assert(rb_parents_ok(f.right_child, Some(f.key)));
                        assert(rb_children_linked(*node));
                    }
                }
                (m_color, hole)
            }
        }
    }

    /// Detach and return the whole subtree rooted at the node carrying
    /// `key`, leaving an empty slot in its place.
    pub(crate) fn extract_subtree(node: &mut RBTChild, key: u64) -> (sub: RBTChild)
        requires
            rb_wf(*old(node)),
            rb_find(*old(node), key).is_some(),
        ensures
            sub == rb_find(*old(node), key),
            rb_wf(*final(node)),
            rb_as_set(*final(node)) =~= rb_as_set(*old(node)).difference(rb_as_set(sub)),
            rb_size(*final(node)) <= rb_size(*old(node)),
            rb_children_linked(*old(node)) ==> rb_children_linked(*final(node)),
            final(node).is_some() ==> rb_root_parent_spec(*final(node)) == rb_root_parent_spec(*old(node)),
            rb_no_nil(*old(node)) ==> rb_no_nil(*final(node)),
        decreases *old(node),
    {
        let mut n = node.take().unwrap();
        let ghost n0 = n;
        if key == n.key {
            *node = None;
            proof {
                assert(rb_as_set(*node) =~= rb_as_set(*old(node)).difference(rb_as_set(Some(n0))));
            }
            Some(n)
        } else if key < n.key {
            if n.left_child.is_some() {
                proof {
                    rb_lemma_find_subset(n0.left_child, key);
                }
                let sub = RBTreeNode::extract_subtree(&mut n.left_child, key);
                *node = Some(n);
                proof {
                    let f = (*node).unwrap();
                    assert(forall|e: u64| rb_as_set(sub).contains(e)
                        ==> rb_as_set(n0.left_child).contains(e));
                    assert(forall|e: u64| rb_as_set(sub).contains(e) ==> e < n0.key);
                    assert(rb_as_set(Some(n0)) == rb_as_set(n0.left_child)
                        .union(rb_as_set(n0.right_child)).insert(n0.key));
                    assert(rb_as_set(*node) == rb_as_set(f.left_child)
                        .union(rb_as_set(n0.right_child)).insert(n0.key));
                    assert(rb_as_set(*node) =~= rb_as_set(*old(node)).difference(rb_as_set(sub)));
                    assert(rb_wf(*node));
                    if rb_children_linked(*old(node)) {
                        assert(rb_parents_ok(n0.left_child, Some(n0.key)));
                        assert(rb_parents_ok(n0.right_child, Some(n0.key)));
                        assert(rb_parents_ok(f.left_child, Some(f.key)));
                        assert(rb_children_linked(*node));
                    }
                }
                sub
            } else {
                proof {
                    assert(false);
                }
                *node = Some(n);
                None
            }
        } else {
            if n.right_child.is_some() {
                proof {
                    rb_lemma_find_subset(n0.right_child, key);
                }
                let sub = RBTreeNode::extract_subtree(&mut n.right_child, key);
                *node = Some(n);
                proof {
                    let f = (*node).unwrap();
                    assert(forall|e: u64| rb_as_set(sub).contains(e)
                        ==> rb_as_set(n0.right_child).contains(e));
                    assert(forall|e: u64| rb_as_set(sub).contains(e) ==> e > n0.key);
                    assert(rb_as_set(Some(n0)) == rb_as_set(n0.left_child)
                        .union(rb_as_set(n0.right_child)).insert(n0.key));
                    assert(rb_as_set(*node) == rb_as_set(n0.left_child)
                        .union(rb_as_set(f.right_child)).insert(n0.key));
                    assert(rb_as_set(*node) =~= rb_as_set(*old(node)).difference(rb_as_set(sub)));
                    assert(rb_wf(*node));
                    if rb_children_linked(*old(node)) {
                        assert(rb_parents_ok(n0.left_child, Some(n0.key)));
                        assert(rb_parents_ok(n0.right_child, Some(n0.key)));
                        assert(rb_parents_ok(f.right_child, Some(f.key)));
                        assert(rb_children_linked(*node));
                    }
                }
                sub
            } else {
                proof {
                    assert(false);
                }
                *node = Some(n);
                None
            }
        }
    }

    /// Replace the subtree rooted at the node carrying `uk` with the
    /// subtree rooted at the node carrying `vk` (which must lie within it;
    /// `None` clears the slot), re-targeting the moved root's back
    /// reference.
    pub(crate) fn transplant_keys(node: &mut RBTChild, uk: u64, vk: Option<u64>)
        requires
            rb_wf(*old(node)),
            rb_find(*old(node), uk).is_some(),
            (vk matches Some(v) ==> rb_find(rb_find(*old(node), uk), v).is_some()),
        ensures
            *final(node) == rb_transplant_spec(*old(node), uk, vk),
            rb_wf(*final(node)),
            rb_as_set(*final(node)) =~= rb_as_set(*old(node))
                .difference(rb_as_set(rb_find(*old(node), uk)))
                .union(rb_as_set(match vk {
                    Some(v) => rb_find(rb_find(*old(node), uk), v),
                    None => None,
                })),
            rb_size(*final(node)) <= rb_size(*old(node)),
            rb_children_linked(*old(node)) ==> rb_children_linked(*final(node)),
            final(node).is_some() ==> rb_root_parent_spec(*final(node)) == rb_root_parent_spec(*old(node)),
            rb_no_nil(*old(node)) ==> rb_no_nil(*final(node)),
        decreases *old(node),
    {
        let mut n = node.take().unwrap();
        let ghost n0 = n;
        if uk == n.key {
            let u_parent = n.parent;
            let ghost usub0 = Some(n0);
            let mut usub = Some(n);
            let mut vsub: RBTChild = None;
            match vk {
                Some(v) => {
                    vsub = RBTreeNode::extract_subtree(&mut usub, v);
                }
                None => {}
            }
            // the detached remainder of u's subtree is dropped
            match vsub {
                Some(mut c) => {
                    let ghost c0 = c;
                    c.parent = u_parent;
                    *node = Some(c);
                    proof {
                        rb_lemma_root_fields(c0, (*node).unwrap());
                    }
                }
                None => {
                    *node = None;
                }
            }
            proof {
                let vspec = (match vk {
                    Some(v) => rb_find(usub0, v),
                    None => None::<Box<RBTreeNode>>,
                });
                assert(rb_as_set(*node) == rb_as_set(vspec));
                if vk.is_some() {
                    rb_lemma_find_subset(usub0, vk.unwrap());
                    rb_lemma_find_wf(usub0, vk.unwrap());
                }
                assert(rb_wf(*node));
                assert(rb_as_set(*node) =~= rb_as_set(*old(node))
                    .difference(rb_as_set(rb_find(*old(node), uk))).union(rb_as_set(vspec)));
                if rb_children_linked(*old(node)) {
                    rb_lemma_find_linked(usub0, (match vk { Some(v) => v, None => 0 }), rb_root_parent_spec(usub0));
                    assert(rb_children_linked(*node));
                }
                if rb_no_nil(*old(node)) {
                    rb_lemma_find_wf(usub0, (match vk { Some(v) => v, None => 0 }));
                    assert(rb_no_nil(*node));
                }
            }
        } else if uk < n.key {
            if n.left_child.is_some() {
                proof {
                    assert(rb_find(*old(node), uk) == rb_find(n0.left_child, uk));
                    rb_lemma_find_subset(n0.left_child, uk);
                    if vk.is_some() {
                        rb_lemma_find_wf(n0.left_child, uk);
                        rb_lemma_find_subset(rb_find(n0.left_child, uk), vk.unwrap());
                    }
                }
                RBTreeNode::transplant_keys(&mut n.left_child, uk, vk);
                *node = Some(n);
                proof {
                    let f = (*node).unwrap();
                    let usub = rb_find(n0.left_child, uk);
                    let vspec = (match vk {
                        Some(v) => rb_find(usub, v),
                        None => None::<Box<RBTreeNode>>,
                    });
                    assert(forall|e: u64| rb_as_set(usub).contains(e)
                        ==> rb_as_set(n0.left_child).contains(e));
                    assert(forall|e: u64| rb_as_set(vspec).contains(e)
                        ==> rb_as_set(usub).contains(e));
                    assert(forall|e: u64| rb_as_set(usub).contains(e) ==> e < n0.key);
                    assert(rb_as_set(Some(n0)) == rb_as_set(n0.left_child)
                        .union(rb_as_set(n0.right_child)).insert(n0.key));
                    assert(rb_as_set(*node) == rb_as_set(f.left_child)
                        .union(rb_as_set(n0.right_child)).insert(n0.key));
                    assert(rb_wf(*node));
                    assert(rb_as_set(*node) =~= rb_as_set(*old(node))
                        .difference(rb_as_set(rb_find(*old(node), uk)))
                        .union(rb_as_set(match vk {
                            Some(v) => rb_find(rb_find(*old(node), uk), v),
                            None => None,
                        })));
                    if rb_children_linked(*old(node)) {
                        assert(rb_parents_ok(n0.left_child, Some(n0.key)));
                        assert(rb_parents_ok(n0.right_child, Some(n0.key)));
                        assert(rb_parents_ok(f.left_child, Some(f.key)));
                        assert(rb_children_linked(*node));
                    }
                }
            } else {
                proof {
                    assert(false);
                }
                *node = Some(n);
            }
        } else {
            if n.right_child.is_some() {
                proof {
                    assert(rb_find(*old(node), uk) == rb_find(n0.right_child, uk));
                    rb_lemma_find_subset(n0.right_child, uk);
                    if vk.is_some() {
                        rb_lemma_find_wf(n0.right_child, uk);
                        rb_lemma_find_subset(rb_find(n0.right_child, uk), vk.unwrap());
                    }
                }
                RBTreeNode::transplant_keys(&mut n.right_child, uk, vk);
                *node = Some(n);
                proof {
                    let f = (*node).unwrap();
                    let usub = rb_find(n0.right_child, uk);
                    let vspec = (match vk {
                        Some(v) => rb_find(usub, v),
                        None => None::<Box<RBTreeNode>>,
                    });
                    assert(forall|e: u64| rb_as_set(usub).contains(e)
                        ==> rb_as_set(n0.right_child).contains(e));
                    assert(forall|e: u64| rb_as_set(vspec).contains(e)
                        ==> rb_as_set(usub).contains(e));
                    assert(forall|e: u64| rb_as_set(usub).contains(e) ==> e > n0.key);
                    assert(rb_as_set(Some(n0)) == rb_as_set(n0.left_child)
                        .union(rb_as_set(n0.right_child)).insert(n0.key));
                    assert(rb_as_set(*node) == rb_as_set(n0.left_child)
                        .union(rb_as_set(f.right_child)).insert(n0.key));
                    assert(rb_wf(*node));
                    assert(rb_as_set(*node) =~= rb_as_set(*old(node))
                        .difference(rb_as_set(rb_find(*old(node), uk)))
                        .union(rb_as_set(match vk {
                            Some(v) => rb_find(rb_find(*old(node), uk), v),
                            None => None,
                        })));
                    if rb_children_linked(*old(node)) {
                        assert(rb_parents_ok(n0.left_child, Some(n0.key)));
                        assert(rb_parents_ok(n0.right_child, Some(n0.key)));
                        assert(rb_parents_ok(f.right_child, Some(f.key)));
                        assert(rb_children_linked(*node));
                    }
                }
            } else {
                proof {
                    assert(false);
                }
                *node = Some(n);
            }
        }
    }

    /// Check the colour discipline below this subtree and compute its
    /// Black height (down the left spine).
    pub(crate) fn check_colors(t: &RBTChild) -> (r: (bool, u128))
        requires
            rb_size(*t) <= SIZE_CAP,
        ensures
            r.0 == (rb_no_red_red(*t) && rb_black_balanced(*t)),
            r.1 == rb_black_height(*t),
        decreases t,
    {
        match t {
            None => (true, 0),
            Some(n) => {
                if n.is_nil {
                    (true, 0)
                } else {
                    let lres = RBTreeNode::check_colors(&n.left_child);
                    let rres = RBTreeNode::check_colors(&n.right_child);
                    proof {
                        rb_lemma_bh_bound(n.left_child);
                        rb_lemma_counts(n.left_child);
                    }
                    let red_ok = if n.color == NodeColor::Red {
                        RBTreeNode::get_root_color(&n.left_child) == NodeColor::Black
                            && RBTreeNode::get_root_color(&n.right_child) == NodeColor::Black
                    } else {
                        true
                    };
                    let ok = lres.0 && rres.0 && red_ok && lres.1 == rres.1;
                    let bh = if n.color == NodeColor::Black { 1 + lres.1 } else { lres.1 };
                    (ok, bh)
                }
            }
        }
    }

    /// The tree dump as structured rows, one per node in preorder, with a
    /// marker row for every empty or nil child slot.
    pub fn print_tree(root: &RBTChild) -> (r: Vec<RBPrintRow>)
        requires
            rb_spec_height(*root) <= SIZE_CAP,
        ensures
            r@ == rb_print_rows(*root, 0, Direction::Left),
    {
        let mut out: Vec<RBPrintRow> = Vec::new();
        RBTreeNode::print_rows_rec(root, 0, Direction::Left, &mut out);
        proof {
            assert(out@ =~= rb_print_rows(*root, 0, Direction::Left));
        }
        out
    }

    fn print_rows_rec(t: &RBTChild, depth: u64, dir: Direction, out: &mut Vec<RBPrintRow>)
        requires
            depth + rb_spec_height(*t) <= SIZE_CAP,
        ensures
            final(out)@ =~= old(out)@ + rb_print_rows(*t, depth as int, dir),
        decreases t,
    {
        match t {
            None => {
                out.push(RBPrintRow {
                    depth,
                    direction: dir,
                    key: None,
                    color: NodeColor::Black,
                    parent: None,
                    solidified: false,
                });
            }
            Some(n) => {
                if n.is_nil {
                    out.push(RBPrintRow {
                        depth,
                        direction: dir,
                        key: None,
                        color: NodeColor::Black,
                        parent: n.parent,
                        solidified: true,
                    });
                } else {
                    out.push(RBPrintRow {
                        depth,
                        direction: dir,
                        key: Some(n.key),
                        color: n.color,
                        parent: n.parent,
                        solidified: false,
                    });
                    RBTreeNode::print_rows_rec(&n.left_child, depth + 1, Direction::Left, out);
                    RBTreeNode::print_rows_rec(&n.right_child, depth + 1, Direction::Right, out);
                }
            }
        }
    }

    fn rotate_rec(node: &mut RBTChild, key: u64, dir: Direction)
        requires
            old(node).is_some(),
            rb_wf(*old(node)),
        ensures
            *final(node) == rb_rotate_spec(*old(node), key, dir),
            final(node).is_some(),
            rb_wf(*final(node)),
            rb_as_set(*final(node)) =~= rb_as_set(*old(node)),
            rb_size(*final(node)) == rb_size(*old(node)),
            rb_no_nil(*old(node)) ==> rb_no_nil(*final(node)),
            rb_children_linked(*old(node)) ==> rb_children_linked(*final(node)),
            rb_root_parent_spec(*final(node)) == rb_root_parent_spec(*old(node)),
        decreases *old(node),
    {
        let mut n = node.take().unwrap();
        let ghost n0 = n;
        if key == n.key {
            match dir {
                Direction::Left => {
                    let usable = match &n.right_child {
                        Some(y) => !y.is_nil,
                        None => false,
                    };
                    if !usable {
                        *node = Some(n);
                        return;
                    }
                    let mut y = n.right_child.take().unwrap();
                    let ghost y0 = y;
                    match y.left_child.take() {
                        Some(mut b) => {
                            b.parent = Some(n.key);
                            n.right_child = Some(b);
                        }
                        None => {
                            n.right_child = None;
                        }
                    }
                    y.parent = n.parent;
                    n.parent = Some(y.key);
                    y.left_child = Some(n);
                    *node = Some(y);
                    proof {
                        let f = (*node).unwrap();
                        let x = f.left_child.unwrap();
                        assert(*old(node) == Some(n0));
                        assert(n0.right_child == Some(y0));
                        assert(rb_wf(Some(y0)));
                        assert(!n0.is_nil);
                        if y0.left_child.is_some() {
                            rb_lemma_root_fields(y0.left_child.unwrap(), x.right_child.unwrap());
                        }
                        assert(rb_as_set(x.right_child) == rb_as_set(y0.left_child));
                        assert(rb_wf(x.right_child) == rb_wf(y0.left_child));
                        assert(rb_size(x.right_child) == rb_size(y0.left_child));
                        assert(rb_no_nil(x.right_child) == rb_no_nil(y0.left_child));
                        assert(rb_as_set(Some(y0)) == rb_as_set(y0.left_child)
                            .union(rb_as_set(y0.right_child)).insert(y0.key));
                        assert(rb_as_set(Some(n0)) == rb_as_set(n0.left_child)
                            .union(rb_as_set(Some(y0))).insert(n0.key));
                        assert(rb_as_set(Some(y0)).contains(y0.key));
                        assert(y0.key > n0.key);
                        assert(rb_as_set(Some(x)) == rb_as_set(n0.left_child)
                            .union(rb_as_set(x.right_child)).insert(n0.key));
                        assert(forall|e: u64| rb_as_set(y0.left_child).contains(e)
                            ==> rb_as_set(Some(y0)).contains(e));
                        assert(rb_wf(Some(x)));
                        assert(rb_as_set(*node) == rb_as_set(Some(x))
                            .union(rb_as_set(y0.right_child)).insert(y0.key));
                        assert(rb_as_set(*node) =~= rb_as_set(*old(node)));
                        assert(rb_wf(*node));
                        assert(rb_size(Some(y0)) == 1 + rb_size(y0.left_child) + rb_size(y0.right_child));
                        assert(rb_size(Some(n0)) == 1 + rb_size(n0.left_child) + rb_size(Some(y0)));
                        assert(rb_size(Some(x)) == 1 + rb_size(n0.left_child) + rb_size(x.right_child));
                        assert(rb_size(*node) == 1 + rb_size(Some(x)) + rb_size(y0.right_child));
                        assert(rb_size(*node) == rb_size(*old(node)));
                        if rb_no_nil(*old(node)) {
                            assert(rb_no_nil(Some(n0)));
                            assert(!n0.is_nil && rb_no_nil(n0.left_child) && rb_no_nil(Some(y0)));
                            assert(rb_no_nil(y0.left_child) && rb_no_nil(y0.right_child));
                            assert(rb_no_nil(Some(x)));
                            assert(rb_no_nil(*node));
                        }
                        if rb_children_linked(*old(node)) {
                            assert(rb_parents_ok(n0.left_child, Some(n0.key)));
                            assert(rb_parents_ok(n0.right_child, Some(n0.key)));
                            assert(rb_parents_ok(y0.left_child, Some(y0.key)));
                            assert(rb_parents_ok(y0.right_child, Some(y0.key)));
                            assert(rb_children_linked(x.right_child) == rb_children_linked(y0.left_child));
                            assert(rb_parents_ok(x.right_child, Some(x.key)));
                            assert(rb_parents_ok(f.left_child, Some(f.key)));
                            assert(rb_parents_ok(f.right_child, Some(f.key)));
                            assert(rb_children_linked(*node));
                        }
                    }
                }
                Direction::Right => {
                    let usable = match &n.left_child {
                        Some(y) => !y.is_nil,
                        None => false,
                    };
                    if !usable {
                        *node = Some(n);
                        return;
                    }
                    let mut y = n.left_child.take().unwrap();
                    let ghost y0 = y;
                    match y.right_child.take() {
                        Some(mut b) => {
                            b.parent = Some(n.key);
                            n.left_child = Some(b);
                        }
                        None => {
                            n.left_child = None;
                        }
                    }
                    y.parent = n.parent;
                    n.parent = Some(y.key);
                    y.right_child = Some(n);
                    *node = Some(y);
                    proof {
                        let f = (*node).unwrap();
                        let x = f.right_child.unwrap();
                        assert(*old(node) == Some(n0));
                        assert(n0.left_child == Some(y0));
                        assert(rb_wf(Some(y0)));
                        assert(!n0.is_nil);
                        if y0.right_child.is_some() {
                            rb_lemma_root_fields(y0.right_child.unwrap(), x.left_child.unwrap());
                        }
                        assert(rb_as_set(x.left_child) == rb_as_set(y0.right_child));
                        assert(rb_wf(x.left_child) == rb_wf(y0.right_child));
                        assert(rb_size(x.left_child) == rb_size(y0.right_child));
                        assert(rb_no_nil(x.left_child) == rb_no_nil(y0.right_child));
                        assert(rb_as_set(Some(y0)) == rb_as_set(y0.left_child)
                            .union(rb_as_set(y0.right_child)).insert(y0.key));
                        assert(rb_as_set(Some(n0)) == rb_as_set(Some(y0))
                            .union(rb_as_set(n0.right_child)).insert(n0.key));
                        assert(rb_as_set(Some(y0)).contains(y0.key));
                        assert(y0.key < n0.key);
                        assert(rb_as_set(Some(x)) == rb_as_set(x.left_child)
                            .union(rb_as_set(n0.right_child)).insert(n0.key));
                        assert(forall|e: u64| rb_as_set(y0.right_child).contains(e)
                            ==> rb_as_set(Some(y0)).contains(e));
                        assert(rb_wf(Some(x)));
                        assert(rb_as_set(*node) == rb_as_set(y0.left_child)
                            .union(rb_as_set(Some(x))).insert(y0.key));
                        assert(rb_as_set(*node) =~= rb_as_set(*old(node)));
                        assert(rb_wf(*node));
                        assert(rb_size(Some(y0)) == 1 + rb_size(y0.left_child) + rb_size(y0.right_child));
                        assert(rb_size(Some(n0)) == 1 + rb_size(Some(y0)) + rb_size(n0.right_child));
                        assert(rb_size(Some(x)) == 1 + rb_size(x.left_child) + rb_size(n0.right_child));
                        assert(rb_size(*node) == 1 + rb_size(y0.left_child) + rb_size(Some(x)));
                        assert(rb_size(*node) == rb_size(*old(node)));
                        if rb_no_nil(*old(node)) {
                            assert(rb_no_nil(Some(n0)));
                            assert(!n0.is_nil && rb_no_nil(n0.right_child) && rb_no_nil(Some(y0)));
                            assert(rb_no_nil(y0.left_child) && rb_no_nil(y0.right_child));
                            assert(rb_no_nil(Some(x)));
                            assert(rb_no_nil(*node));
                        }
                        if rb_children_linked(*old(node)) {
                            assert(rb_parents_ok(n0.left_child, Some(n0.key)));
                            assert(rb_parents_ok(n0.right_child, Some(n0.key)));
                            assert(rb_parents_ok(y0.left_child, Some(y0.key)));
                            assert(rb_parents_ok(y0.right_child, Some(y0.key)));
                            assert(rb_children_linked(x.left_child) == rb_children_linked(y0.right_child));
                            assert(rb_parents_ok(x.left_child, Some(x.key)));
                            assert(rb_parents_ok(f.left_child, Some(f.key)));
                            assert(rb_parents_ok(f.right_child, Some(f.key)));
                            assert(rb_children_linked(*node));
                        }
                    }
                }
            }
        } else if key < n.key {
            if n.left_child.is_some() {
                RBTreeNode::rotate_rec(&mut n.left_child, key, dir);
            }
            *node = Some(n);
            proof {
                let f = (*node).unwrap();
                assert(rb_as_set(f.left_child) == rb_as_set(n0.left_child));
                assert(rb_as_set(*node) =~= rb_as_set(*old(node)));
                if rb_children_linked(*old(node)) {
                    assert(rb_parents_ok(n0.left_child, Some(n0.key)));
                    assert(rb_parents_ok(n0.right_child, Some(n0.key)));
                    assert(rb_parents_ok(f.left_child, Some(f.key)));
                    assert(rb_parents_ok(f.right_child, Some(f.key)));
                }
            }
        } else {
            if n.right_child.is_some() {
                RBTreeNode::rotate_rec(&mut n.right_child, key, dir);
            }
            *node = Some(n);
            proof {
                let f = (*node).unwrap();
                assert(rb_as_set(f.right_child) == rb_as_set(n0.right_child));
                assert(rb_as_set(*node) =~= rb_as_set(*old(node)));
                if rb_children_linked(*old(node)) {
                    assert(rb_parents_ok(n0.left_child, Some(n0.key)));
                    assert(rb_parents_ok(n0.right_child, Some(n0.key)));
                    assert(rb_parents_ok(f.left_child, Some(f.key)));
                    assert(rb_parents_ok(f.right_child, Some(f.key)));
                }
            }
        }
    }
}

/// Left child of the subtree's root.
pub open spec fn rb_left_spec(t: RBTChild) -> RBTChild {
    match t {
        None => None,
        Some(n) => n.left_child,
    }
}

/// Right child of the subtree's root.
pub open spec fn rb_right_spec(t: RBTChild) -> RBTChild {
    match t {
        None => None,
        Some(n) => n.right_child,
    }
}

/// Key of the subtree's root, if any.
pub open spec fn rb_root_key_opt(t: RBTChild) -> Option<u64> {
    match t {
        None => None,
        Some(n) => Some(n.key),
    }
}

/// Parent back reference of the subtree's root, if any.
pub open spec fn rb_root_parent_spec(t: RBTChild) -> Option<u64> {
    match t {
        None => None,
        Some(n) => n.parent,
    }
}

/// The subtree whose root owns the node carrying `key`, by binary-search
/// descent; `None` when `key` sits at the root of `t` or is absent.
pub open spec fn rb_parent_spec(t: RBTChild, key: u64) -> RBTChild
    decreases t,
{
    match t {
        None => None,
        Some(n) => {
            if key == n.key {
                None
            } else if key < n.key {
                if rb_root_key_opt(n.left_child) == Some(key) {
                    t
                } else {
                    rb_parent_spec(n.left_child, key)
                }
            } else {
                if rb_root_key_opt(n.right_child) == Some(key) {
                    t
                } else {
                    rb_parent_spec(n.right_child, key)
                }
            }
        }
    }
}

/// The subtree rooted at the leftmost node reached by following left edges
/// until an absent or nil child.
pub open spec fn rb_min_spec(t: RBTChild) -> RBTChild
    decreases t,
{
    match t {
        None => None,
        Some(n) => {
            match n.left_child {
                None => t,
                Some(l) => {
                    if l.is_nil {
                        t
                    } else {
                        rb_min_spec(n.left_child)
                    }
                }
            }
        }
    }
}

/// Every real node has both child slots filled and every nil sentinel is a
/// leaf: the state inside the deletion bracket.
pub open spec fn rb_solid(t: RBTChild) -> bool
    decreases t,
{
    match t {
        None => true,
        Some(n) => {
            if n.is_nil {
                n.left_child.is_none() && n.right_child.is_none()
            } else {
                &&& n.left_child.is_some()
                &&& n.right_child.is_some()
                &&& rb_solid(n.left_child)
                &&& rb_solid(n.right_child)
            }
        }
    }
}

/// On a nil-free well-formed tree, binary-search descent finds exactly the
/// keys of the tree.
pub proof fn rb_lemma_find_set(t: RBTChild, key: u64)
    requires
        rb_wf(t),
        rb_no_nil(t),
    ensures
        rb_find(t, key).is_some() <==> rb_as_set(t).contains(key),
        rb_find(t, key).is_some() ==> rb_find(t, key).unwrap().key == key && !rb_find(t, key).unwrap().is_nil,
    decreases t,
{
    match t {
        None => {}
        Some(n) => {
            rb_lemma_find_set(n.left_child, key);
            rb_lemma_find_set(n.right_child, key);
        }
    }
}

/// A found subtree's keys are among the tree's keys.
pub proof fn rb_lemma_find_subset(t: RBTChild, key: u64)
    requires
        rb_wf(t),
    ensures
        forall|e: u64| rb_as_set(rb_find(t, key)).contains(e) ==> rb_as_set(t).contains(e),
    decreases t,
{
    reveal_with_fuel(rb_find, 2);
    reveal_with_fuel(rb_as_set, 2);
    match t {
        None => {}
        Some(n) => {
            if !n.is_nil && key != n.key {
                if key < n.key {
                    rb_lemma_find_subset(n.left_child, key);
                    assert(rb_find(t, key) == rb_find(n.left_child, key));
                } else {
                    rb_lemma_find_subset(n.right_child, key);
                    assert(rb_find(t, key) == rb_find(n.right_child, key));
                }
            }
            if n.is_nil && key != n.key {
                assert(rb_find(t, key).is_none());
            }
        }
    }
    assert forall|e: u64| rb_as_set(rb_find(t, key)).contains(e)
        implies rb_as_set(t).contains(e) by {
        if t.is_some() {
            let n = t.unwrap();
            if !n.is_nil && key != n.key {
                if key < n.key {
                    assert(rb_as_set(rb_find(n.left_child, key)).contains(e));
                    assert(rb_as_set(n.left_child).contains(e));
                } else {
                    assert(rb_as_set(rb_find(n.right_child, key)).contains(e));
                    assert(rb_as_set(n.right_child).contains(e));
                }
            }
        }
    };
}

/// A found subtree of a well-formed tree is well-formed, and nil-free when
/// the tree is.
pub proof fn rb_lemma_find_wf(t: RBTChild, key: u64)
    requires
        rb_wf(t),
    ensures
        rb_wf(rb_find(t, key)),
        rb_no_nil(t) ==> rb_no_nil(rb_find(t, key)),
        rb_size(rb_find(t, key)) <= rb_size(t),
    decreases t,
{
    reveal_with_fuel(rb_find, 2);
    reveal_with_fuel(rb_wf, 2);
    reveal_with_fuel(rb_no_nil, 2);
    reveal_with_fuel(rb_size, 2);
    match t {
        None => {}
        Some(n) => {
            if !n.is_nil && key != n.key {
                if key < n.key {
                    rb_lemma_find_wf(n.left_child, key);
                    assert(rb_find(t, key) == rb_find(n.left_child, key));
                } else {
                    rb_lemma_find_wf(n.right_child, key);
                    assert(rb_find(t, key) == rb_find(n.right_child, key));
                }
            }
            if n.is_nil && key != n.key {
                assert(rb_find(t, key).is_none());
            }
        }
    }
}

/// In a tree whose back references are consistent, so are those below any
/// found subtree.
pub proof fn rb_lemma_find_linked(t: RBTChild, key: u64, pk: Option<u64>)
    requires
        rb_parents_ok(t, pk),
    ensures
        rb_children_linked(rb_find(t, key)),
    decreases t,
{
    reveal_with_fuel(rb_find, 2);
    match t {
        None => {}
        Some(n) => {
            if key != n.key {
                if key < n.key {
                    rb_lemma_find_linked(n.left_child, key, Some(n.key));
                } else {
                    rb_lemma_find_linked(n.right_child, key, Some(n.key));
                }
            }
        }
    }
}

/// On a nil-free well-formed tree, the leftmost node carries the smallest
/// key of the tree.
pub proof fn rb_lemma_min_key(t: RBTChild)
    requires
        rb_wf(t),
        rb_no_nil(t),
        t.is_some(),
    ensures
        rb_min_spec(t).is_some(),
        rb_as_set(t).contains(rb_min_spec(t).unwrap().key),
        forall|e: u64| rb_as_set(t).contains(e) ==> rb_min_spec(t).unwrap().key <= e,
    decreases t,
{
    let n = t.unwrap();
    assert(!n.is_nil);
    match n.left_child {
        None => {
            assert(rb_min_spec(t) == t);
            assert(rb_as_set(n.left_child) =~= Set::<u64>::empty());
            assert forall|e: u64| rb_as_set(t).contains(e)
                implies rb_min_spec(t).unwrap().key <= e by {
                if rb_as_set(n.right_child).contains(e) {
                    assert(e > n.key);
                }
            }
        }
        Some(l) => {
            assert(rb_no_nil(n.left_child));
            assert(!l.is_nil);
            assert(rb_min_spec(t) == rb_min_spec(n.left_child));
            rb_lemma_min_key(n.left_child);
            let m = rb_min_spec(n.left_child).unwrap().key;
            assert(rb_as_set(n.left_child).contains(m));
            assert(m < n.key);
            assert forall|e: u64| rb_as_set(t).contains(e)
                implies rb_min_spec(t).unwrap().key <= e by {
                if rb_as_set(n.right_child).contains(e) {
                    assert(e > n.key);
                }
            }
        }
    }
}

/// Two nodes that differ at most in colour and parent back reference carry
/// the same keys, shape and linkage below themselves.
pub proof fn rb_lemma_root_fields(o: Box<RBTreeNode>, f: Box<RBTreeNode>)
    requires
        f.key == o.key,
        f.is_nil == o.is_nil,
        f.left_child == o.left_child,
        f.right_child == o.right_child,
    ensures
        rb_as_set(Some(f)) == rb_as_set(Some(o)),
        rb_size(Some(f)) == rb_size(Some(o)),
        rb_wf(Some(f)) == rb_wf(Some(o)),
        rb_no_nil(Some(f)) == rb_no_nil(Some(o)),
        rb_spec_height(Some(f)) == rb_spec_height(Some(o)),
        rb_inorder(Some(f)) == rb_inorder(Some(o)),
        rb_children_linked(Some(f)) == rb_children_linked(Some(o)),
        rb_solid(Some(f)) == rb_solid(Some(o)),
{
    assert(rb_as_set(Some(f)) == rb_as_set(Some(o)));
    assert(rb_size(Some(f)) == rb_size(Some(o)));
    assert(rb_wf(Some(f)) == rb_wf(Some(o)));
    assert(rb_no_nil(Some(f)) == rb_no_nil(Some(o)));
    assert(rb_spec_height(Some(f)) == rb_spec_height(Some(o)));
    assert(rb_inorder(Some(f)) == rb_inorder(Some(o)));
    assert(rb_children_linked(Some(f)) == rb_children_linked(Some(o)));
    assert(rb_solid(Some(f)) == rb_solid(Some(o)));
}

/// A strictly increasing sequence of keys.
pub open spec fn keys_sorted(s: Seq<u64>) -> bool {
    forall|i: int, j: int| 0 <= i < j < s.len() ==> s[i] < s[j]
}

/// The in-order key sequence of a well-formed tree is strictly increasing
/// and holds exactly the tree's keys.
pub proof fn rb_lemma_inorder_sorted(t: RBTChild)
    requires
        rb_wf(t),
    ensures
        keys_sorted(rb_inorder(t)),
        forall|e: u64| rb_inorder(t).contains(e) <==> rb_as_set(t).contains(e),
    decreases t,
{
    match t {
        None => {
            assert(forall|e: u64| !rb_inorder(t).contains(e));
        }
        Some(n) => {
            rb_lemma_inorder_sorted(n.left_child);
            rb_lemma_inorder_sorted(n.right_child);
            if n.is_nil {
                assert(forall|e: u64| !rb_inorder(t).contains(e));
            } else {
                let a = rb_inorder(n.left_child);
                let c = rb_inorder(n.right_child);
                let s = rb_inorder(t);
                assert(s == a + seq![n.key] + c);
                assert forall|e: u64| s.contains(e) implies rb_as_set(t).contains(e) by {
                    let i = choose|i: int| 0 <= i < s.len() && s[i] == e;
                    if i < a.len() {
                        assert(a[i] == e);
                        assert(a.contains(e));
                    } else if i > a.len() {
                        assert(c[i - a.len() - 1] == e);
                        assert(c.contains(e));
                    }
                }
                assert forall|e: u64| rb_as_set(t).contains(e) implies s.contains(e) by {
                    if rb_as_set(n.left_child).contains(e) {
                        let i = choose|i: int| 0 <= i < a.len() && a[i] == e;
                        assert(s[i] == e);
                    } else if rb_as_set(n.right_child).contains(e) {
                        let i = choose|i: int| 0 <= i < c.len() && c[i] == e;
                        assert(s[a.len() + 1 + i] == e);
                    } else {
                        assert(s[a.len() as int] == n.key);
                    }
                }
                assert forall|i: int, j: int| 0 <= i < j < s.len() implies s[i] < s[j] by {
                    if j < a.len() {
                        assert(a[i] < a[j]);
                    } else if i > a.len() {
                        assert(c[i - a.len() - 1] < c[j - a.len() - 1]);
                    } else if i < a.len() && j == a.len() {
                        assert(a.contains(a[i]));
                        assert(rb_as_set(n.left_child).contains(a[i]));
                    } else if i < a.len() && j > a.len() {
                        assert(a.contains(a[i]));
                        assert(rb_as_set(n.left_child).contains(a[i]));
                        assert(c.contains(c[j - a.len() - 1]));
                        assert(rb_as_set(n.right_child).contains(c[j - a.len() - 1]));
                    } else {
                        assert(c.contains(c[j - a.len() - 1]));
                        assert(rb_as_set(n.right_child).contains(c[j - a.len() - 1]));
                    }
                }
            }
        }
    }
}

/// The node sitting at the end of a path of child edges.
pub open spec fn rb_node_at(t: RBTChild, path: Seq<Direction>) -> RBTChild
    decreases path.len(),
{
    if path.len() == 0 {
        t
    } else {
        match t {
            None => None,
            Some(n) => {
                if path[0] == Direction::Left {
                    rb_node_at(n.left_child, path.drop_first())
                } else {
                    rb_node_at(n.right_child, path.drop_first())
                }
            }
        }
    }
}

/// Back-pointer consistency: every non-root node names its owning parent,
/// and it sits in exactly one of that parent's child slots.
pub proof fn rb_lemma_parent_child(t: RBTChild, path: Seq<Direction>, pk: Option<u64>)
    requires
        rb_wf(t),
        rb_no_nil(t),
        rb_parents_ok(t, pk),
        path.len() > 0,
        rb_node_at(t, path).is_some(),
    ensures
        rb_node_at(t, path.drop_last()).is_some(),
        rb_node_at(t, path).unwrap().parent
            == Some(rb_node_at(t, path.drop_last()).unwrap().key),
        (path.last() == Direction::Left ==> rb_node_at(t, path.drop_last()).unwrap().left_child
            == rb_node_at(t, path)),
        (path.last() == Direction::Right ==> rb_node_at(t, path.drop_last()).unwrap().right_child
            == rb_node_at(t, path)),
        !(rb_node_at(t, path.drop_last()).unwrap().left_child == rb_node_at(t, path)
            && rb_node_at(t, path.drop_last()).unwrap().right_child == rb_node_at(t, path)),
    decreases path.len(),
{
    let n = t.unwrap();
    if path.len() == 1 {
        assert(path.drop_last() =~= Seq::<Direction>::empty());
        assert(rb_node_at(t, path.drop_last()) == t);
        let child = rb_node_at(t, path);
        assert(path.drop_first().len() == 0);
        assert(rb_node_at(n.left_child, path.drop_first()) == n.left_child);
        assert(rb_node_at(n.right_child, path.drop_first()) == n.right_child);
        assert(child == (if path[0] == Direction::Left { n.left_child } else { n.right_child }));
        assert(rb_parents_ok(child, Some(n.key)));
        assert(rb_no_nil(child));
        assert(!child.unwrap().is_nil);
        assert(child.unwrap().parent == Some(n.key));
        let ck = child.unwrap().key;
        assert(rb_as_set(child).contains(ck));
        if n.left_child == child && n.right_child == child {
            assert(rb_as_set(n.left_child).contains(ck));
            assert(rb_as_set(n.right_child).contains(ck));
            assert(false);
        }
    } else {
        let sub = (if path[0] == Direction::Left { n.left_child } else { n.right_child });
        assert(rb_node_at(t, path) == rb_node_at(sub, path.drop_first()));
        rb_lemma_parent_child(sub, path.drop_first(), Some(n.key));
        assert(path.drop_first().drop_last() =~= path.drop_last().drop_first());
        assert(path.drop_first().last() == path.last());
        assert(rb_node_at(t, path.drop_last()) == rb_node_at(sub, path.drop_last().drop_first()));
    }
}

/// One line of the human-readable tree dump: the slot's depth and side, and
/// the node's attributes (`key` is `None` for an empty or nil slot;
/// `solidified` marks a materialised nil sentinel).
#[derive(Clone, Copy, Debug, PartialEq, Eq)]
pub struct RBPrintRow {
    pub depth: u64,
    pub direction: Direction,
    pub key: Option<u64>,
    pub color: NodeColor,
    pub parent: Option<u64>,
    pub solidified: bool,
}

/// The rows of the tree dump, in preorder.
pub open spec fn rb_print_rows(t: RBTChild, depth: int, dir: Direction) -> Seq<RBPrintRow>
    decreases t,
{
    match t {
        None => seq![RBPrintRow {
            depth: depth as u64,
            direction: dir,
            key: None,
            color: NodeColor::Black,
            parent: None,
            solidified: false,
        }],
        Some(n) => {
            if n.is_nil {
                seq![RBPrintRow {
                    depth: depth as u64,
                    direction: dir,
                    key: None,
                    color: NodeColor::Black,
                    parent: n.parent,
                    solidified: true,
                }]
            } else {
                seq![RBPrintRow {
                    depth: depth as u64,
                    direction: dir,
                    key: Some(n.key),
                    color: n.color,
                    parent: n.parent,
                    solidified: false,
                }] + rb_print_rows(n.left_child, depth + 1, Direction::Left)
                    + rb_print_rows(n.right_child, depth + 1, Direction::Right)
            }
        }
    }
}

/// A Red node never has a Red child (absent children read Black).
pub open spec fn rb_no_red_red(t: RBTChild) -> bool
    decreases t,
{
    match t {
        None => true,
        Some(n) => {
            if n.is_nil {
                true
            } else {
                &&& (n.color == NodeColor::Red ==> rb_root_color_spec(n.left_child) == NodeColor::Black
                    && rb_root_color_spec(n.right_child) == NodeColor::Black)
                &&& rb_no_red_red(n.left_child)
                &&& rb_no_red_red(n.right_child)
            }
        }
    }
}

/// Black count from a node down its leftmost spine (the node itself
/// included when Black).
pub open spec fn rb_black_height(t: RBTChild) -> nat
    decreases t,
{
    match t {
        None => 0,
        Some(n) => {
            if n.is_nil {
                0
            } else {
                (if n.color == NodeColor::Black { 1 as nat } else { 0 as nat }) + rb_black_height(n.left_child)
            }
        }
    }
}

/// Every root-to-absent-child path through each node carries the same
/// number of Black nodes.
pub open spec fn rb_black_balanced(t: RBTChild) -> bool
    decreases t,
{
    match t {
        None => true,
        Some(n) => {
            if n.is_nil {
                true
            } else {
                &&& rb_black_height(n.left_child) == rb_black_height(n.right_child)
                &&& rb_black_balanced(n.left_child)
                &&& rb_black_balanced(n.right_child)
            }
        }
    }
}

/// The black height never exceeds the node count.
pub proof fn rb_lemma_bh_bound(t: RBTChild)
    ensures
        rb_black_height(t) <= rb_size(t),
    decreases t,
{
    match t {
        None => {}
        Some(n) => {
            rb_lemma_bh_bound(n.left_child);
        }
    }
}

/// Whether a left rotation at the subtree's root has a real pivot: the
/// root and its right child both exist and the child is not nil.
pub open spec fn rb_rot_left_usable(t: RBTChild) -> bool {
    match t {
        None => false,
        Some(n) => {
            match n.right_child {
                None => false,
                Some(y) => !y.is_nil,
            }
        }
    }
}

/// Mirror image of `rb_rot_left_usable`.
pub open spec fn rb_rot_right_usable(t: RBTChild) -> bool {
    match t {
        None => false,
        Some(n) => {
            match n.left_child {
                None => false,
                Some(y) => !y.is_nil,
            }
        }
    }
}

/// The left rotation pivoting the root of `t` and its right child `y`: `y`
/// takes the root's position, the root becomes `y`'s left child, `y`'s old
/// left subtree becomes the root's right subtree, and every moved back
/// reference is re-targeted. A no-op when the pivot is absent or nil.
pub open spec fn rb_rotate_left_here(t: RBTChild) -> RBTChild {
    match t {
        None => t,
        Some(n) => {
            if !rb_rot_left_usable(t) {
                t
            } else {
                let y = n.right_child.unwrap();
                let moved = (match y.left_child {
                    None => None,
                    Some(b) => Some(Box::new(RBTreeNode {
                        color: b.color,
                        key: b.key,
                        parent: Some(n.key),
                        left_child: b.left_child,
                        right_child: b.right_child,
                        is_nil: b.is_nil,
                    })),
                });
                Some(Box::new(RBTreeNode {
                    color: y.color,
                    key: y.key,
                    parent: n.parent,
                    left_child: Some(Box::new(RBTreeNode {
                        color: n.color,
                        key: n.key,
                        parent: Some(y.key),
                        left_child: n.left_child,
                        right_child: moved,
                        is_nil: n.is_nil,
                    })),
                    right_child: y.right_child,
                    is_nil: y.is_nil,
                }))
            }
        }
    }
}

/// Mirror image of `rb_rotate_left_here`.
pub open spec fn rb_rotate_right_here(t: RBTChild) -> RBTChild {
    match t {
        None => t,
        Some(n) => {
            if !rb_rot_right_usable(t) {
                t
            } else {
                let y = n.left_child.unwrap();
                let moved = (match y.right_child {
                    None => None,
                    Some(b) => Some(Box::new(RBTreeNode {
                        color: b.color,
                        key: b.key,
                        parent: Some(n.key),
                        left_child: b.left_child,
                        right_child: b.right_child,
                        is_nil: b.is_nil,
                    })),
                });
                Some(Box::new(RBTreeNode {
                    color: y.color,
                    key: y.key,
                    parent: n.parent,
                    left_child: y.left_child,
                    right_child: Some(Box::new(RBTreeNode {
                        color: n.color,
                        key: n.key,
                        parent: Some(y.key),
                        left_child: moved,
                        right_child: n.right_child,
                        is_nil: n.is_nil,
                    })),
                    is_nil: y.is_nil,
                }))
            }
        }
    }
}

/// The whole-tree effect of a rotation around the node carrying `key`: the
/// binary-search descent reaches that node and the local rotation is
/// applied in place; anything else is untouched.
pub open spec fn rb_rotate_spec(t: RBTChild, key: u64, dir: Direction) -> RBTChild
    decreases t,
{
    match t {
        None => t,
        Some(n) => {
            if key == n.key {
                match dir {
                    Direction::Left => rb_rotate_left_here(t),
                    Direction::Right => rb_rotate_right_here(t),
                }
            } else if key < n.key {
                if n.left_child.is_some() {
                    Some(Box::new(RBTreeNode {
                        color: n.color,
                        key: n.key,
                        parent: n.parent,
                        left_child: rb_rotate_spec(n.left_child, key, dir),
                        right_child: n.right_child,
                        is_nil: n.is_nil,
                    }))
                } else {
                    t
                }
            } else {
                if n.right_child.is_some() {
                    Some(Box::new(RBTreeNode {
                        color: n.color,
                        key: n.key,
                        parent: n.parent,
                        left_child: n.left_child,
                        right_child: rb_rotate_spec(n.right_child, key, dir),
                        is_nil: n.is_nil,
                    }))
                } else {
                    t
                }
            }
        }
    }
}

/// The tree with the node carrying `key` recoloured to `c`; untouched when
/// `key` is absent.
pub open spec fn rb_with_color(t: RBTChild, key: u64, c: NodeColor) -> RBTChild
    decreases t,
{
    match t {
        None => t,
        Some(n) => {
            if key == n.key {
                Some(Box::new(RBTreeNode {
                    color: c,
                    key: n.key,
                    parent: n.parent,
                    left_child: n.left_child,
                    right_child: n.right_child,
                    is_nil: n.is_nil,
                }))
            } else if key < n.key {
                Some(Box::new(RBTreeNode {
                    color: n.color,
                    key: n.key,
                    parent: n.parent,
                    left_child: rb_with_color(n.left_child, key, c),
                    right_child: n.right_child,
                    is_nil: n.is_nil,
                }))
            } else {
                Some(Box::new(RBTreeNode {
                    color: n.color,
                    key: n.key,
                    parent: n.parent,
                    left_child: n.left_child,
                    right_child: rb_with_color(n.right_child, key, c),
                    is_nil: n.is_nil,
                }))
            }
        }
    }
}

/// The tree with the `dir` child of the node carrying `key` recoloured to
/// `c` (nil children included); untouched when no such child exists.
pub open spec fn rb_with_child_color(t: RBTChild, key: u64, dir: Direction, c: NodeColor) -> RBTChild
    decreases t,
{
    match t {
        None => t,
        Some(n) => {
            if key == n.key {
                Some(Box::new(RBTreeNode {
                    color: n.color,
                    key: n.key,
                    parent: n.parent,
                    left_child: (if dir == Direction::Left {
                        match n.left_child {
                            None => None,
                            Some(cb) => Some(Box::new(RBTreeNode {
                                color: c,
                                key: cb.key,
                                parent: cb.parent,
                                left_child: cb.left_child,
                                right_child: cb.right_child,
                                is_nil: cb.is_nil,
                            })),
                        }
                    } else {
                        n.left_child
                    }),
                    right_child: (if dir == Direction::Right {
                        match n.right_child {
                            None => None,
                            Some(cb) => Some(Box::new(RBTreeNode {
                                color: c,
                                key: cb.key,
                                parent: cb.parent,
                                left_child: cb.left_child,
                                right_child: cb.right_child,
                                is_nil: cb.is_nil,
                            })),
                        }
                    } else {
                        n.right_child
                    }),
                    is_nil: n.is_nil,
                }))
            } else if key < n.key {
                Some(Box::new(RBTreeNode {
                    color: n.color,
                    key: n.key,
                    parent: n.parent,
                    left_child: rb_with_child_color(n.left_child, key, dir, c),
                    right_child: n.right_child,
                    is_nil: n.is_nil,
                }))
            } else {
                Some(Box::new(RBTreeNode {
                    color: n.color,
                    key: n.key,
                    parent: n.parent,
                    left_child: n.left_child,
                    right_child: rb_with_child_color(n.right_child, key, dir, c),
                    is_nil: n.is_nil,
                }))
            }
        }
    }
}

/// Binary-search-descent insertion of a fresh Red childless leaf carrying
/// `key`, its back reference naming the node it hangs from; the tree is
/// untouched when `key` is already present or the tree is empty.
pub open spec fn rb_insert_spec(t: RBTChild, key: u64) -> RBTChild
    decreases t,
{
    match t {
        None => t,
        Some(n) => {
            if key == n.key {
                t
            } else if key < n.key {
                Some(Box::new(RBTreeNode {
                    color: n.color,
                    key: n.key,
                    parent: n.parent,
                    left_child: (if n.left_child.is_some() {
                        rb_insert_spec(n.left_child, key)
                    } else {
                        rb_new_node_spec(key, NodeColor::Red, Some(n.key), false)
                    }),
                    right_child: n.right_child,
                    is_nil: n.is_nil,
                }))
            } else {
                Some(Box::new(RBTreeNode {
                    color: n.color,
                    key: n.key,
                    parent: n.parent,
                    left_child: n.left_child,
                    right_child: (if n.right_child.is_some() {
                        rb_insert_spec(n.right_child, key)
                    } else {
                        rb_new_node_spec(key, NodeColor::Red, Some(n.key), false)
                    }),
                    is_nil: n.is_nil,
                }))
            }
        }
    }
}

/// The transplant of the subtree rooted at the node carrying `vk` (which
/// lies within the subtree rooted at the node carrying `uk`; `None` clears
/// the slot) into `uk`'s position: `uk`'s old slot now holds `vk`'s
/// subtree, whose root's back reference is re-targeted to `uk`'s old
/// parent; the rest of the tree is untouched and the displaced remainder is
/// dropped.
pub open spec fn rb_transplant_spec(t: RBTChild, uk: u64, vk: Option<u64>) -> RBTChild
    decreases t,
{
    match t {
        None => t,
        Some(n) => {
            if uk == n.key {
                match vk {
                    None => None,
                    Some(v) => {
                        match rb_find(t, v) {
                            None => None,
                            Some(vb) => Some(Box::new(RBTreeNode {
                                color: vb.color,
                                key: vb.key,
                                parent: n.parent,
                                left_child: vb.left_child,
                                right_child: vb.right_child,
                                is_nil: vb.is_nil,
                            })),
                        }
                    }
                }
            } else if uk < n.key {
                if n.left_child.is_some() {
                    Some(Box::new(RBTreeNode {
                        color: n.color,
                        key: n.key,
                        parent: n.parent,
                        left_child: rb_transplant_spec(n.left_child, uk, vk),
                        right_child: n.right_child,
                        is_nil: n.is_nil,
                    }))
                } else {
                    t
                }
            } else {
                if n.right_child.is_some() {
                    Some(Box::new(RBTreeNode {
                        color: n.color,
                        key: n.key,
                        parent: n.parent,
                        left_child: n.left_child,
                        right_child: rb_transplant_spec(n.right_child, uk, vk),
                        is_nil: n.is_nil,
                    }))
                } else {
                    t
                }
            }
        }
    }
}

/// Every empty child slot of the tree materialised as a Black nil sentinel
/// that carries its owner's key as a filler and names it as parent.
pub open spec fn rb_solidify_spec(t: RBTChild) -> RBTChild
    decreases t,
{
    match t {
        None => t,
        Some(n) => Some(Box::new(RBTreeNode {
            color: n.color,
            key: n.key,
            parent: n.parent,
            left_child: (if n.left_child.is_none() {
                rb_new_node_spec(n.key, NodeColor::Black, Some(n.key), true)
            } else {
                rb_solidify_spec(n.left_child)
            }),
            right_child: (if n.right_child.is_none() {
                rb_new_node_spec(n.key, NodeColor::Black, Some(n.key), true)
            } else {
                rb_solidify_spec(n.right_child)
            }),
            is_nil: n.is_nil,
        })),
    }
}

/// Every nil-flagged child replaced with an empty slot again.
pub open spec fn rb_virtualize_spec(t: RBTChild) -> RBTChild
    decreases t,
{
    match t {
        None => t,
        Some(n) => Some(Box::new(RBTreeNode {
            color: n.color,
            key: n.key,
            parent: n.parent,
            left_child: (if rb_root_nil_spec(n.left_child) {
                None
            } else {
                rb_virtualize_spec(n.left_child)
            }),
            right_child: (if rb_root_nil_spec(n.right_child) {
                None
            } else {
                rb_virtualize_spec(n.right_child)
            }),
            is_nil: n.is_nil,
        })),
    }
}

/// De-materialising the sentinels undoes materialising them: the deletion
/// bracket is invisible from outside.
pub proof fn rb_lemma_bracket_identity(t: RBTChild)
    requires
        rb_no_nil(t),
    ensures
        rb_virtualize_spec(rb_solidify_spec(t)) == t,
    decreases t,
{
    match t {
        None => {}
        Some(n) => {
            assert(!n.is_nil && rb_no_nil(n.left_child) && rb_no_nil(n.right_child));
            rb_lemma_bracket_identity(n.left_child);
            rb_lemma_bracket_identity(n.right_child);
            assert(rb_root_nil_spec(rb_new_node_spec(n.key, NodeColor::Black, Some(n.key), true)));
            if n.left_child.is_some() {
                assert(!rb_root_nil_spec(rb_solidify_spec(n.left_child)));
            }
            if n.right_child.is_some() {
                assert(!rb_root_nil_spec(rb_solidify_spec(n.right_child)));
            }
            assert(rb_virtualize_spec(rb_solidify_spec(t)) == t);
        }
    }
}

/// Child of the node carrying `key`, on the given side.
pub open spec fn rb_child_spec(t: RBTChild, key: u64, dir: Direction) -> RBTChild {
    match dir {
        Direction::Left => rb_left_spec(rb_find(t, key)),
        Direction::Right => rb_right_spec(rb_find(t, key)),
    }
}

/// Whether the `dir` child of the node carrying `key` is a real node.
pub open spec fn rb_child_real(t: RBTChild, key: u64, dir: Direction) -> bool {
    rb_child_spec(t, key, dir).is_some() && !rb_child_spec(t, key, dir).unwrap().is_nil
}

/// Key of the `dir` child of the node carrying `key`.
pub open spec fn rb_child_key(t: RBTChild, key: u64, dir: Direction) -> u64
    recommends
        rb_child_spec(t, key, dir).is_some(),
{
    rb_child_spec(t, key, dir).unwrap().key
}

/// Colour of the `dir` child of the node carrying `key` (Black when absent).
pub open spec fn rb_child_color(t: RBTChild, key: u64, dir: Direction) -> NodeColor {
    rb_root_color_spec(rb_child_spec(t, key, dir))
}

/// Key of the parent of the node carrying `key`, if there is one.
pub open spec fn rb_parent_key(t: RBTChild, key: u64) -> Option<u64> {
    rb_root_key_opt(rb_parent_spec(t, key))
}

/// Force the slot the fix-up walk stopped at to Black: the root when the
/// address is `None`, the addressed child slot otherwise.
pub open spec fn rb_fixup_blacken(t: RBTChild, addr: Option<(u64, Direction)>) -> RBTChild {
    match addr {
        None => {
            match t {
                None => t,
                Some(n) => rb_with_color(t, n.key, NodeColor::Black),
            }
        }
        Some(a) => rb_with_child_color(t, a.0, a.1, NodeColor::Black),
    }
}

/// One iteration of the delete fix-up's sibling walk at the hole addressed
/// by the `x_dir` child slot of the node carrying `p`: the four sibling
/// cases of the classic algorithm, returning the changed tree and the next
/// hole address (`None` once the walk reaches the root or a terminal case).
pub open spec fn rb_delete_fixup_step(t: RBTChild, p: u64, x_dir: Direction) -> (RBTChild, Option<(u64, Direction)>) {
    if x_dir == Direction::Left {
        let w1r = rb_child_real(t, p, Direction::Right);
        let t1 = (if rb_child_color(t, p, Direction::Right) == NodeColor::Red {
            let ta = (if w1r { rb_with_color(t, rb_child_key(t, p, Direction::Right), NodeColor::Black) } else { t });
            rb_rotate_spec(rb_with_color(ta, p, NodeColor::Red), p, Direction::Left)
        } else {
            t
        });
        let wr_ = rb_child_real(t1, p, Direction::Right);
        let wk = rb_child_key(t1, p, Direction::Right);
        let near_color = (if wr_ { rb_child_color(t1, wk, Direction::Left) } else { NodeColor::Black });
        let far_color = (if wr_ { rb_child_color(t1, wk, Direction::Right) } else { NodeColor::Black });
        let near_real = (if wr_ { rb_child_real(t1, wk, Direction::Left) } else { false });
        if near_color == NodeColor::Black && far_color == NodeColor::Black {
            let t2 = (if wr_ { rb_with_color(t1, wk, NodeColor::Red) } else { t1 });
            let a2 = (match rb_parent_key(t2, p) {
                None => None,
                Some(g) => {
                    if rb_child_real(t2, g, Direction::Left) && rb_child_key(t2, g, Direction::Left) == p {
                        Some((g, Direction::Left))
                    } else {
                        Some((g, Direction::Right))
                    }
                }
            });
            (t2, a2)
        } else {
            let t2 = (if far_color == NodeColor::Black {
                let ta = (if near_real { rb_with_color(t1, rb_child_key(t1, wk, Direction::Left), NodeColor::Black) } else { t1 });
                if wr_ { rb_rotate_spec(rb_with_color(ta, wk, NodeColor::Red), wk, Direction::Right) } else { ta }
            } else {
                t1
            });
            let w2r = rb_child_real(t2, p, Direction::Right);
            let w2k = rb_child_key(t2, p, Direction::Right);
            let pc = rb_root_color_spec(rb_find(t2, p));
            let t3 = (if w2r {
                rb_with_child_color(rb_with_color(t2, w2k, pc), w2k, Direction::Right, NodeColor::Black)
            } else {
                t2
            });
            (rb_rotate_spec(rb_with_color(t3, p, NodeColor::Black), p, Direction::Left), None)
        }
    } else {
        let w1r = rb_child_real(t, p, Direction::Left);
        let t1 = (if rb_child_color(t, p, Direction::Left) == NodeColor::Red {
            let ta = (if w1r { rb_with_color(t, rb_child_key(t, p, Direction::Left), NodeColor::Black) } else { t });
            rb_rotate_spec(rb_with_color(ta, p, NodeColor::Red), p, Direction::Right)
        } else {
            t
        });
        let wr_ = rb_child_real(t1, p, Direction::Left);
        let wk = rb_child_key(t1, p, Direction::Left);
        let near_color = (if wr_ { rb_child_color(t1, wk, Direction::Right) } else { NodeColor::Black });
        let far_color = (if wr_ { rb_child_color(t1, wk, Direction::Left) } else { NodeColor::Black });
        let near_real = (if wr_ { rb_child_real(t1, wk, Direction::Right) } else { false });
        if near_color == NodeColor::Black && far_color == NodeColor::Black {
            let t2 = (if wr_ { rb_with_color(t1, wk, NodeColor::Red) } else { t1 });
            let a2 = (match rb_parent_key(t2, p) {
                None => None,
                Some(g) => {
                    if rb_child_real(t2, g, Direction::Left) && rb_child_key(t2, g, Direction::Left) == p {
                        Some((g, Direction::Left))
                    } else {
                        Some((g, Direction::Right))
                    }
                }
            });
            (t2, a2)
        } else {
            let t2 = (if far_color == NodeColor::Black {
                let ta = (if near_real { rb_with_color(t1, rb_child_key(t1, wk, Direction::Right), NodeColor::Black) } else { t1 });
                if wr_ { rb_rotate_spec(rb_with_color(ta, wk, NodeColor::Red), wk, Direction::Left) } else { ta }
            } else {
                t1
            });
            let w2r = rb_child_real(t2, p, Direction::Left);
            let w2k = rb_child_key(t2, p, Direction::Left);
            let pc = rb_root_color_spec(rb_find(t2, p));
            let t3 = (if w2r {
                rb_with_child_color(rb_with_color(t2, w2k, pc), w2k, Direction::Left, NodeColor::Black)
            } else {
                t2
            });
            (rb_rotate_spec(rb_with_color(t3, p, NodeColor::Black), p, Direction::Right), None)
        }
    }
}

/// The removal of the leftmost real node of `t`: it is replaced by its
/// right child, re-targeted to the removed node's parent. Returns the
/// changed tree, the removed key and colour, and `Some(parent key)` when
/// the removed node was not this subtree's root.
pub open spec fn rb_extract_min_spec(t: RBTChild) -> (RBTChild, u64, NodeColor, Option<u64>)
    decreases t,
{
    match t {
        None => (t, 0, NodeColor::Black, None),
        Some(n) => {
            let left_real = (match n.left_child {
                Some(l) => !l.is_nil,
                None => false,
            });
            if left_real {
                let rec = rb_extract_min_spec(n.left_child);
                (Some(Box::new(RBTreeNode {
                    color: n.color,
                    key: n.key,
                    parent: n.parent,
                    left_child: rec.0,
                    right_child: n.right_child,
                    is_nil: n.is_nil,
                })), rec.1, rec.2, (match rec.3 {
                    None => Some(n.key),
                    Some(pk) => Some(pk),
                }))
            } else {
                ((match n.right_child {
                    None => None,
                    Some(c) => Some(Box::new(RBTreeNode {
                        color: c.color,
                        key: c.key,
                        parent: n.parent,
                        left_child: c.left_child,
                        right_child: c.right_child,
                        is_nil: c.is_nil,
                    })),
                }), n.key, n.color, None)
            }
        }
    }
}

/// The structural removal of the node carrying `key`: a node with an
/// absent or nil child is replaced by its other child, a node with two
/// real children takes its in-order successor's key (children re-targeted)
/// and the successor's node is removed instead. Returns the changed tree,
/// the removed node's colour and the absolute hole address.
pub open spec fn rb_remove_key_spec(t: RBTChild, key: u64) -> (RBTChild, NodeColor, Option<(u64, Direction)>)
    decreases t,
{
    match t {
        None => (t, NodeColor::Black, None),
        Some(n) => {
            if key < n.key {
                if n.left_child.is_some() {
                    let rec = rb_remove_key_spec(n.left_child, key);
                    (Some(Box::new(RBTreeNode {
                        color: n.color,
                        key: n.key,
                        parent: n.parent,
                        left_child: rec.0,
                        right_child: n.right_child,
                        is_nil: n.is_nil,
                    })), rec.1, (match rec.2 {
                        None => Some((n.key, Direction::Left)),
                        Some(a) => Some(a),
                    }))
                } else {
                    (t, NodeColor::Black, None)
                }
            } else if key > n.key {
                if n.right_child.is_some() {
                    let rec = rb_remove_key_spec(n.right_child, key);
                    (Some(Box::new(RBTreeNode {
                        color: n.color,
                        key: n.key,
                        parent: n.parent,
                        left_child: n.left_child,
                        right_child: rec.0,
                        is_nil: n.is_nil,
                    })), rec.1, (match rec.2 {
                        None => Some((n.key, Direction::Right)),
                        Some(a) => Some(a),
                    }))
                } else {
                    (t, NodeColor::Black, None)
                }
            } else {
                if rb_root_nil_spec(n.left_child) {
                    ((match n.right_child {
                        None => None,
                        Some(c) => Some(Box::new(RBTreeNode {
                            color: c.color,
                            key: c.key,
                            parent: n.parent,
                            left_child: c.left_child,
                            right_child: c.right_child,
                            is_nil: c.is_nil,
                        })),
                    }), n.color, None)
                } else if rb_root_nil_spec(n.right_child) {
                    ((match n.left_child {
                        None => None,
                        Some(c) => Some(Box::new(RBTreeNode {
                            color: c.color,
                            key: c.key,
                            parent: n.parent,
                            left_child: c.left_child,
                            right_child: c.right_child,
                            is_nil: c.is_nil,
                        })),
                    }), n.color, None)
                } else {
                    let er = rb_extract_min_spec(n.right_child);
                    let m = er.1;
                    (Some(Box::new(RBTreeNode {
                        color: n.color,
                        key: m,
                        parent: n.parent,
                        left_child: (match n.left_child {
                            None => None,
                            Some(c) => Some(Box::new(RBTreeNode {
                                color: c.color,
                                key: c.key,
                                parent: Some(m),
                                left_child: c.left_child,
                                right_child: c.right_child,
                                is_nil: c.is_nil,
                            })),
                        }),
                        right_child: (match er.0 {
                            None => None,
                            Some(c) => Some(Box::new(RBTreeNode {
                                color: c.color,
                                key: c.key,
                                parent: Some(m),
                                left_child: c.left_child,
                                right_child: c.right_child,
                                is_nil: c.is_nil,
                            })),
                        }),
                        is_nil: n.is_nil,
                    })), er.2, (match er.3 {
                        None => Some((m, Direction::Right)),
                        Some(pk) => Some((pk, Direction::Left)),
                    }))
                }
            }
        }
    }
}

/// The whole deletion of a present key: the sole-node case clears the
/// tree; otherwise the nil-sentinel bracket is materialised, the node is
/// structurally removed, the Black-depth fix-up walk runs when a Black
/// node left the tree, and the bracket is torn down.
pub open spec fn rb_delete_spec(t: RBTChild, key: u64) -> RBTChild {
    match t {
        None => t,
        Some(n) => {
            if n.key == key && rb_is_leaf_spec(t) {
                None
            } else {
                let rem = rb_remove_key_spec(rb_solidify_spec(t), key);
                let fixed = (if rem.1 == NodeColor::Black && rem.0.is_some() {
                    rb_delete_fixup_spec(rem.0, rem.2, SIZE_CAP as nat)
                } else {
                    rem.0
                });
                if rb_root_nil_spec(fixed) {
                    None
                } else {
                    rb_virtualize_spec(fixed)
                }
            }
        }
    }
}

/// One iteration of the insert fix-up at the Red node carrying `z`, whose
/// parent `p` is Red under the grandparent `g`: recolour when the uncle is
/// Red, otherwise rotate the chain straight and lift the parent, as the
/// classic algorithm does. Returns the changed tree and the next node to
/// examine.
pub open spec fn rb_insert_fixup_step(t: RBTChild, z: u64, p: u64, g: u64) -> (RBTChild, u64) {
    if rb_child_real(t, g, Direction::Left) && rb_child_key(t, g, Direction::Left) == p {
        let ur = rb_child_real(t, g, Direction::Right);
        if rb_child_color(t, g, Direction::Right) == NodeColor::Red {
            let t1 = rb_with_color(t, p, NodeColor::Black);
            let t2 = (if ur { rb_with_color(t1, rb_child_key(t, g, Direction::Right), NodeColor::Black) } else { t1 });
            (rb_with_color(t2, g, NodeColor::Red), g)
        } else {
            let bend = rb_child_real(t, p, Direction::Right) && rb_child_key(t, p, Direction::Right) == z;
            let z1 = (if bend { p } else { z });
            let t1 = (if bend { rb_rotate_spec(t, p, Direction::Left) } else { t });
            match rb_parent_key(t1, z1) {
                None => (t1, z1),
                Some(pz) => {
                    let t2 = rb_with_color(t1, pz, NodeColor::Black);
                    match rb_parent_key(t2, pz) {
                        None => (t2, z1),
                        Some(gz) => (rb_rotate_spec(rb_with_color(t2, gz, NodeColor::Red), gz, Direction::Right), z1),
                    }
                }
            }
        }
    } else {
        let ur = rb_child_real(t, g, Direction::Left);
        if rb_child_color(t, g, Direction::Left) == NodeColor::Red {
            let t1 = rb_with_color(t, p, NodeColor::Black);
            let t2 = (if ur { rb_with_color(t1, rb_child_key(t, g, Direction::Left), NodeColor::Black) } else { t1 });
            (rb_with_color(t2, g, NodeColor::Red), g)
        } else {
            let bend = rb_child_real(t, p, Direction::Left) && rb_child_key(t, p, Direction::Left) == z;
            let z1 = (if bend { p } else { z });
            let t1 = (if bend { rb_rotate_spec(t, p, Direction::Right) } else { t });
            match rb_parent_key(t1, z1) {
                None => (t1, z1),
                Some(pz) => {
                    let t2 = rb_with_color(t1, pz, NodeColor::Black);
                    match rb_parent_key(t2, pz) {
                        None => (t2, z1),
                        Some(gz) => (rb_rotate_spec(rb_with_color(t2, gz, NodeColor::Red), gz, Direction::Left), z1),
                    }
                }
            }
        }
    }
}

/// The whole insert fix-up: iterate the recolour-and-rotate walk from the
/// inserted node while its parent is Red (or until the step budget runs
/// out), then force the root Black.
pub open spec fn rb_insert_fixup_spec(t: RBTChild, z: u64, fuel: nat) -> RBTChild
    decreases fuel,
{
    if fuel == 0 {
        rb_fixup_blacken(t, None)
    } else {
        match rb_parent_key(t, z) {
            None => rb_fixup_blacken(t, None),
            Some(p) => {
                if rb_root_color_spec(rb_find(t, p)) != NodeColor::Red {
                    rb_fixup_blacken(t, None)
                } else {
                    match rb_parent_key(t, p) {
                        None => rb_fixup_blacken(t, None),
                        Some(g) => {
                            let next = rb_insert_fixup_step(t, z, p, g);
                            rb_insert_fixup_spec(next.0, next.1, (fuel - 1) as nat)
                        }
                    }
                }
            }
        }
    }
}

/// The whole delete fix-up: iterate the sibling walk from the hole until it
/// reaches the root, meets a Red slot, or the step budget runs out, then
/// force the final slot Black.
pub open spec fn rb_delete_fixup_spec(t: RBTChild, addr: Option<(u64, Direction)>, fuel: nat) -> RBTChild
    decreases fuel,
{
    if fuel == 0 {
        rb_fixup_blacken(t, addr)
    } else {
        match addr {
            None => rb_fixup_blacken(t, addr),
            Some(a) => {
                if rb_child_color(t, a.0, a.1) == NodeColor::Red {
                    rb_fixup_blacken(t, addr)
                } else {
                    let next = rb_delete_fixup_step(t, a.0, a.1);
                    rb_delete_fixup_spec(next.0, next.1, (fuel - 1) as nat)
                }
            }
        }
    }
}

/// The node `new_node` builds: a childless node with the given attributes.
pub open spec fn rb_new_node_spec(key: u64, color: NodeColor, parent: Option<u64>, is_nil: bool) -> RBTChild {
    Some(Box::new(RBTreeNode {
        color,
        key,
        parent,
        left_child: None,
        right_child: None,
        is_nil,
    }))
}

} // verus!
