use balanced_trees::avl_tree::{AVLPrintRow, AVLTreeNode};
use balanced_trees::avl_tree_type::AVLTree;
use balanced_trees::red_black_tree::{NodeColor, RBPrintRow, RBTreeNode};
use balanced_trees::tree_type::{RedBlackTree, TraverseOrder};

fn assert_strictly_increasing(keys: &[u64]) {
    for w in keys.windows(2) {
        assert!(w[0] < w[1]);
    }
}

/// Walk a preorder dump and check every node row names its real parent.
fn assert_rb_parents(rows: &[RBPrintRow]) {
    let mut stack: Vec<u64> = vec![];
    for row in rows {
        let d = row.depth as usize;
        if let Some(k) = row.key {
            if d == 0 {
                assert_eq!(row.parent, None);
            } else {
                assert_eq!(row.parent, Some(stack[d - 1]));
            }
            if stack.len() == d {
                stack.push(k);
            } else {
                stack[d] = k;
            }
        }
    }
}

fn assert_avl_parents(rows: &[AVLPrintRow]) {
    let mut stack: Vec<u64> = vec![];
    for row in rows {
        let d = row.depth as usize;
        if let Some(k) = row.key {
            if d == 0 {
                assert_eq!(row.parent, None);
            } else {
                assert_eq!(row.parent, Some(stack[d - 1]));
            }
            if stack.len() == d {
                stack.push(k);
            } else {
                stack[d] = k;
            }
        }
    }
}

#[test]
fn test_recolor_flips() {
    let mut c = NodeColor::Red;
    c.recolor();
    assert_eq!(c, NodeColor::Black);
    c.recolor();
    assert_eq!(c, NodeColor::Red);
}

#[test]
fn test_empty_tree_accessors() {
    let mut rbt = RedBlackTree::new();
    assert!(rbt.is_empty());
    assert_eq!(rbt.get_height(), 0);
    assert_eq!(rbt.get_num_leaves(), 0);
    assert!(!rbt.search(&7));
    assert!(rbt.traverse(TraverseOrder::Ascending).is_empty());

    let mut avl = AVLTree::new();
    assert!(avl.is_empty());
    assert_eq!(avl.get_height(), 0);
    assert_eq!(avl.get_num_leaves(), 0);
    assert!(!avl.search(&7));
    assert!(avl.traverse(TraverseOrder::Descending).is_empty());
}

#[test]
fn test_rb_insert_scenario() {
    let mut rbt = RedBlackTree::new();
    for i in [5, 2, 10, 8, 6, 9, 12, 13] {
        rbt.insert(&i);
    }
    assert_eq!(
        rbt.traverse(TraverseOrder::Ascending),
        vec![2, 5, 6, 8, 9, 10, 12, 13]
    );
    // inserting 13 recolours 9 and 12, turns 10 red and, with 8 red over a
    // black uncle 2, left-rotates at the grandparent 5: 8 ends at the root
    match &rbt.root {
        Some(n) => assert_eq!(n.key, 8),
        None => panic!(),
    }
    assert_eq!(rbt.get_height(), 4);
    assert!(rbt.check_invariants());
}

#[test]
fn test_rb_delete_scenario() {
    let mut rbt = RedBlackTree::new();
    for i in [12, 8, 15, 5, 9, 13, 19, 10, 23] {
        rbt.insert(&i);
    }
    rbt.delete(&15);
    assert_eq!(
        rbt.traverse(TraverseOrder::Ascending),
        vec![5, 8, 9, 10, 12, 13, 19, 23]
    );
    assert_eq!(rbt.get_num_leaves(), 4);
    assert!(rbt.check_invariants());
}

#[test]
fn test_avl_insert_scenario() {
    let mut avl = AVLTree::new();
    for i in [5, 2, 10, 8, 6, 9, 12, 13] {
        avl.insert(&i);
    }
    assert_eq!(
        avl.traverse(TraverseOrder::Ascending),
        vec![2, 5, 6, 8, 9, 10, 12, 13]
    );
    assert_eq!(avl.get_height(), 4);
    assert!(avl.check_invariants());
}

#[test]
fn test_avl_delete_leaf_scenario() {
    let mut avl = AVLTree::new();
    for i in [11, 31, 18, 2, 1, 33, 28, 4, 3, 7, 5, 25, 20, 19, 15, 12, 14, 29] {
        avl.insert(&i);
    }
    avl.delete(&19);
    assert!(!avl.search(&19));
    assert!(avl.check_invariants());
}

#[test]
fn test_avl_delete_both_subtrees_scenario() {
    let mut avl = AVLTree::new();
    for i in [11, 31, 18, 2, 1, 33, 28, 4, 3, 7, 5, 25, 20, 19, 15, 12, 14, 29] {
        avl.insert(&i);
    }
    avl.delete(&18);
    assert!(!avl.search(&18));
    let asc = avl.traverse(TraverseOrder::Ascending);
    assert_strictly_increasing(&asc);
    assert!(avl.check_invariants());
}

#[test]
fn test_stress_round_trip() {
    let mut rbt = RedBlackTree::new();
    let mut inserted = vec![];
    for _ in 0..10000 {
        let a: u64 = rand::random_range(0..100000);
        rbt.insert(&a);
        inserted.push(a);
    }
    for i in &inserted {
        rbt.delete(i);
    }
    assert!(rbt.is_empty());
    assert_eq!(rbt.get_height(), 0);
}

#[test]
fn test_avl_stress_round_trip() {
    let mut avl = AVLTree::new();
    let mut inserted = vec![];
    for _ in 0..10000 {
        let a: u64 = rand::random_range(0..100000);
        avl.insert(&a);
        inserted.push(a);
    }
    for i in &inserted {
        avl.delete(i);
    }
    assert!(avl.is_empty());
    assert_eq!(avl.get_height(), 0);
}

#[test]
fn test_rb_random_ops_keep_invariants() {
    let mut rbt = RedBlackTree::new();
    for step in 0..400u64 {
        let a: u64 = rand::random_range(0..200);
        if step % 3 == 2 {
            rbt.delete(&a);
        } else {
            rbt.insert(&a);
        }
        assert!(rbt.check_invariants());
    }
    let asc = rbt.traverse(TraverseOrder::Ascending);
    assert_strictly_increasing(&asc);
    let rows = rbt.print_tree();
    assert_rb_parents(&rows);
}

#[test]
fn test_avl_random_ops_keep_invariants() {
    let mut avl = AVLTree::new();
    for step in 0..400u64 {
        let a: u64 = rand::random_range(0..200);
        if step % 3 == 2 {
            avl.delete(&a);
        } else {
            avl.insert(&a);
        }
        assert!(avl.check_invariants());
    }
    let asc = avl.traverse(TraverseOrder::Ascending);
    assert_strictly_increasing(&asc);
    let rows = avl.print_tree();
    assert_avl_parents(&rows);
}

#[test]
fn test_insert_idempotent_structurally() {
    let mut rbt = RedBlackTree::new();
    for i in [9, 4, 13, 2, 6, 11, 15] {
        rbt.insert(&i);
    }
    let before = rbt.print_tree();
    rbt.insert(&11);
    let after = rbt.print_tree();
    assert_eq!(before, after);

    let mut avl = AVLTree::new();
    for i in [9, 4, 13, 2, 6, 11, 15] {
        avl.insert(&i);
    }
    let before = avl.print_tree();
    avl.insert(&4);
    let after = avl.print_tree();
    assert_eq!(before, after);
}

#[test]
fn test_delete_then_search_and_absent_noop() {
    let mut rbt = RedBlackTree::new();
    for i in [9, 4, 13, 2, 6, 11, 15] {
        rbt.insert(&i);
    }
    rbt.delete(&4);
    assert!(!rbt.search(&4));
    let before = rbt.print_tree();
    rbt.delete(&77);
    let after = rbt.print_tree();
    assert_eq!(before, after);

    let mut avl = AVLTree::new();
    for i in [9, 4, 13, 2, 6, 11, 15] {
        avl.insert(&i);
    }
    avl.delete(&13);
    assert!(!avl.search(&13));
    let before = avl.print_tree();
    avl.delete(&77);
    let after = avl.print_tree();
    assert_eq!(before, after);
}

#[test]
fn test_traverse_orders_are_reverses() {
    let mut rbt = RedBlackTree::new();
    let mut avl = AVLTree::new();
    for i in [20, 7, 31, 2, 9, 25, 40, 8, 23] {
        rbt.insert(&i);
        avl.insert(&i);
    }
    let mut asc = rbt.traverse(TraverseOrder::Ascending);
    let desc = rbt.traverse(TraverseOrder::Descending);
    asc.reverse();
    assert_eq!(asc, desc);

    let mut asc = avl.traverse(TraverseOrder::Ascending);
    let desc = avl.traverse(TraverseOrder::Descending);
    asc.reverse();
    assert_eq!(asc, desc);
}

#[test]
fn test_height_bounds() {
    let mut rbt = RedBlackTree::new();
    let mut avl = AVLTree::new();
    let mut n: u64 = 0;
    for _ in 0..2000 {
        let a: u64 = rand::random_range(0..100000);
        if !rbt.search(&a) {
            n += 1;
        }
        rbt.insert(&a);
        avl.insert(&a);
    }
    let rb_h = rbt.get_height() as f64;
    let avl_h = avl.get_height() as f64;
    assert!(rb_h <= 2.0 * ((n as f64) + 1.0).log2());
    assert!(avl_h <= 1.45 * ((n as f64) + 2.0).log2());
}

#[test]
fn test_node_graph_getters() {
    let mut root = RBTreeNode::new(8);
    for i in [4, 12, 2, 6, 10, 14] {
        RBTreeNode::insert_node(&mut root, i);
    }
    assert!(RBTreeNode::is_node_equal(
        &RBTreeNode::find_node(&root, 4),
        &RBTreeNode::get_left(&root)
    ));
    assert_eq!(RBTreeNode::get_root_key(&RBTreeNode::get_right(&root)), 12);
    assert_eq!(RBTreeNode::get_root_key(&RBTreeNode::get_minimum(&root)), 2);
    assert_eq!(
        RBTreeNode::get_root_key(&RBTreeNode::get_parent_by_key(&root, 6)),
        4
    );
    assert_eq!(RBTreeNode::get_color(&root, 8), NodeColor::Black);
    assert!(RBTreeNode::is_leaf(&RBTreeNode::find_node(&root, 14)));
    assert!(!RBTreeNode::get_root_nil(&root));
    assert!(RBTreeNode::get_root_nil(&RBTreeNode::empty()));
}

#[test]
fn test_raw_linkage_ops() {
    // wire a two-node graph by hand through the raw linkage operations
    let mut root = RBTreeNode::new(8);
    let child = RBTreeNode::new(3);
    RBTreeNode::set_child(&mut root, child, balanced_trees::red_black_tree::Direction::Left);
    let mut left = RBTreeNode::get_left(&root);
    RBTreeNode::set_parent(&mut left, &root);
    assert_eq!(RBTreeNode::get_root_key(&left), 3);
    assert!(!RBTreeNode::is_leaf(&root));
    // materialise a nil sentinel and observe it
    RBTreeNode::set_child_nil(&mut root, balanced_trees::red_black_tree::Direction::Right);
    let right = RBTreeNode::get_right(&root);
    assert!(RBTreeNode::get_root_nil(&right));
    // recolour the root in place
    RBTreeNode::set_root_color(&mut root, NodeColor::Red);
    assert_eq!(RBTreeNode::get_root_color(&root), NodeColor::Red);
}

#[test]
fn test_solidify_virtualize_round_trip() {
    let mut root = AVLTreeNode::new(8);
    for i in [4, 12, 2, 6] {
        AVLTreeNode::insert_node(&mut root, i);
    }
    let before = AVLTreeNode::print_tree(&root);
    AVLTreeNode::solidify_all_nil(&mut root);
    AVLTreeNode::virtualize_all_nil(&mut root);
    let after = AVLTreeNode::print_tree(&root);
    assert_eq!(before, after);
}

#[test]
fn test_avl_delete_fixup_is_stable_on_balanced_tree() {
    let mut avl = AVLTree::new();
    for i in [9, 4, 13, 2, 6, 11, 15] {
        avl.insert(&i);
    }
    let before = avl.traverse(TraverseOrder::Ascending);
    avl.delete_fixup(6);
    let after = avl.traverse(TraverseOrder::Ascending);
    assert_eq!(before, after);
    assert!(avl.check_invariants());
}
