use balanced_trees::avl_tree::AVLTreeNode;
use balanced_trees::avl_tree_type::AVLTree;
use balanced_trees::red_black_tree::RBTreeNode;
use balanced_trees::tree_type::{RedBlackTree, TraverseOrder};

#[test]
fn test_rb_rotate() {
    let mut root = RBTreeNode::new(5);
    for i in [5, 2, 10, 8, 6, 9, 12] {
        RBTreeNode::insert_node(&mut root, i);
    }
    let _ = RBTreeNode::print_tree(&root);

    let root = RBTreeNode::left_rotate(root, 12);
    let _ = RBTreeNode::print_tree(&root);
}

#[test]
fn test_avl_left_rotate() {
    let mut root = AVLTreeNode::new(5);
    for i in [5, 2, 10, 8, 6, 9, 12] {
        AVLTreeNode::insert_node(&mut root, i);
    }
    let _ = AVLTreeNode::print_tree(&root);

    let root = AVLTreeNode::left_rotate(root, 10);
    let _ = AVLTreeNode::print_tree(&root);
}

#[test]
fn test_avl_right_rotate() {
    let mut root = AVLTreeNode::new(5);
    for i in [5, 2, 10, 8, 6, 9, 12] {
        AVLTreeNode::insert_node(&mut root, i);
    }
    let _ = AVLTreeNode::print_tree(&root);
}

#[test]
fn test_avl_set_root_key() {
    let mut root = AVLTreeNode::new(15);
    for i in [12, 19, 8, 23] {
        AVLTreeNode::insert_node(&mut root, i);
    }
    let _ = AVLTreeNode::print_tree(&root);
    let mut found = AVLTreeNode::find_node(&root, 15);
    AVLTreeNode::set_root_key(&mut found, 16);
    let _ = AVLTreeNode::print_tree(&found);
}

#[test]
fn test_avl_node_get_height() {
    let root = AVLTreeNode::new(15);
    assert_eq!(1, AVLTreeNode::get_height(&root));
}

#[test]
fn test_avl_node_set_height() {
    let mut root = AVLTreeNode::new(15);
    AVLTreeNode::set_height(&mut root, 3);
    assert_eq!(3, AVLTreeNode::get_height(&root));
}

#[test]
fn test_avl_node_update_height() {
    let root = AVLTreeNode::new(15);
    assert_eq!(1, AVLTreeNode::get_height(&root));
}

#[test]
fn test_rb_insert() {
    let mut rbt = RedBlackTree::new();
    for i in [5, 2, 10, 8, 6, 9, 12, 13] {
        rbt.insert(&i);
    }
    let _ = rbt.print_tree();
}

#[test]
fn test_avl_insert() {
    let mut avl = AVLTree::new();
    for i in [5, 2, 10, 8, 6, 9, 12, 13] {
        avl.insert(&i);
    }
    let _ = avl.print_tree();
}

#[test]
fn test_rb_delete1() {
    let mut rbt = RedBlackTree::new();
    let _ = rbt.is_empty();
    for i in [12, 8, 15, 5, 9, 13, 19, 10, 23] {
        rbt.insert(&i);
    }
    let _ = rbt.traverse(TraverseOrder::Ascending);
}

#[test]
fn test_pressure() {
    let mut rbt = RedBlackTree::new();
    let mut inserted = vec![];
    for _ in 0..10000 {
        let a: u64 = rand::random_range(0..100000);
        rbt.insert(&a);
        inserted.append(&mut vec![a]);
    }
    for i in inserted {
        rbt.delete(&i);
    }
    let _ = rbt.print_tree();
}

#[test]
fn test_rb_delete2() {
    let mut rbt = RedBlackTree::new();
    for i in [12, 8, 15, 5, 9, 13, 23, 1, 10] {
        rbt.insert(&i);
    }
    rbt.delete(&5);
    let _ = rbt.print_tree();
}

#[test]
fn test_rb_delete3() {
    let mut rbt = RedBlackTree::new();
    for i in [12, 8, 15, 1, 9, 13, 23, 10] {
        rbt.insert(&i);
    }
    rbt.delete(&12);
    let _ = rbt.print_tree();
}

#[test]
fn test_rb_transplant1() {
    let mut rbt = RedBlackTree::new();
    for i in [15, 12, 19, 9, 13, 23] {
        rbt.insert(&i);
    }
    rbt.transplant(
        &RBTreeNode::find_node(&rbt.root, 15),
        &RBTreeNode::find_node(&rbt.root, 19),
    );
    let _ = rbt.print_tree();
}

#[test]
fn test_rb_transplant2() {
    let mut rbt = RedBlackTree::new();
    for i in [15, 12, 19, 13, 23] {
        rbt.insert(&i);
    }
    rbt.transplant(
        &RBTreeNode::find_node(&rbt.root, 12),
        &RBTreeNode::find_node(&rbt.root, 13),
    );
    let _ = rbt.print_tree();
}

#[test]
fn test_rb_transplant3() {
    let mut rbt = RedBlackTree::new();
    for i in [15, 12, 19, 8, 23] {
        rbt.insert(&i);
    }
    rbt.transplant(
        &RBTreeNode::find_node(&rbt.root, 19),
        &RBTreeNode::find_node(&rbt.root, 23),
    );
    let _ = rbt.print_tree();
}

#[test]
fn test_rb_transplant4() {
    let mut rbt = RedBlackTree::new();
    for i in [15, 12, 19, 8, 23] {
        rbt.insert(&i);
    }
    rbt.transplant(&RBTreeNode::find_node(&rbt.root, 23), &None);
    let _ = rbt.print_tree();
}

#[test]
fn test_avl_delete_case1() {
    // deleting a leaf node
    let mut avl = AVLTree::new();
    for i in [11, 31, 18, 2, 1, 33, 28, 4, 3, 7, 5, 25, 20, 19, 15, 12, 14, 29] {
        avl.insert(&i);
    }
    let _ = avl.print_tree();
    avl.delete(&19);
    let _ = avl.print_tree();
}

#[test]
fn test_avl_delete_case2() {
    // deleting a node with a right subtree but no left subtree
    let mut avl = AVLTree::new();
    for i in [11, 31, 18, 2, 1, 33, 28, 4, 3, 7, 5, 25, 20, 19, 15, 12, 14, 29] {
        avl.insert(&i);
    }
    let _ = avl.print_tree();
    avl.delete(&28);
    let _ = avl.print_tree();
}

#[test]
fn test_avl_delete_case3() {
    // deleting a node with a left subtree but no right subtree
    let mut avl = AVLTree::new();
    for i in [11, 31, 18, 2, 1, 33, 28, 4, 3, 7, 5, 25, 20, 19, 15, 12, 14, 29] {
        avl.insert(&i);
    }
    let _ = avl.print_tree();
    avl.delete(&20);
    let _ = avl.print_tree();
}

#[test]
fn test_avl_delete_case4_min_is_leaf() {
    // deleting a node with both subtrees whose in-order successor is a leaf
    let mut avl = AVLTree::new();
    for i in [11, 31, 18, 2, 1, 33, 28, 4, 3, 7, 5, 25, 20, 19, 15, 12, 14, 29] {
        avl.insert(&i);
    }
    let _ = avl.print_tree();
    avl.delete(&18);
    let _ = avl.print_tree();
}

#[test]
fn test_avl_delete_case4_min_has_right_tree() {
    // deleting a node with both subtrees whose in-order successor has a
    // right subtree
    let mut avl = AVLTree::new();
    for i in [11, 31, 18, 2, 1, 33, 28, 4, 3, 7, 5, 25, 20, 19, 15, 12, 14, 29] {
        avl.insert(&i);
    }
    let _ = avl.print_tree();
    avl.delete(&25);
    let _ = avl.print_tree();
}

#[test]
fn test_avl_delete_only_root_left() {
    let mut avl = AVLTree::new();
    avl.insert(&1);
    let _ = avl.print_tree();
    avl.delete(&1);
    let _ = avl.print_tree();
}

#[test]
fn test_avl_delete_empty() {
    let mut avl = AVLTree::new();
    avl.delete(&1);
}

#[test]
fn test_avl_count_leaves() {
    let mut avl = AVLTree::new();
    for i in [15, 12, 19, 8, 23] {
        avl.insert(&i);
    }
    assert_eq!(2, avl.get_num_leaves());
}

#[test]
fn test_avl_get_height() {
    let mut avl = AVLTree::new();
    for i in [15, 12, 19, 8, 23] {
        avl.insert(&i);
    }
    assert_eq!(3, avl.get_height());
}

#[test]
fn test_avl_print_traverse() {
    let mut avl = AVLTree::new();
    for i in [15, 12, 19, 8, 23] {
        avl.insert(&i);
    }
    let _ = avl.traverse(TraverseOrder::Descending);
    let _ = avl.traverse(TraverseOrder::Ascending);
}

#[test]
fn test_avl_check_empty() {
    let mut avl = AVLTree::new();
    assert_eq!(true, avl.is_empty());

    for i in [15, 12, 19, 8, 23] {
        avl.insert(&i);
    }
    assert_eq!(false, avl.is_empty());
}
