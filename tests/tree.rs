use mini_tokio::{BinarySearchTree, Node};

fn values(tree: &BinarySearchTree<i64>) -> Vec<i64> {
    let mut it = tree.inorder();
    let mut out = Vec::new();
    while let Some(v) = it.next() {
        out.push(v);
    }
    out
}

#[test]
fn empty_tree() {
    let tree: BinarySearchTree<i64> = BinarySearchTree::new();
    assert!(tree.root.is_none());
    assert_eq!(tree.height(), 0);
    assert_eq!(values(&tree), Vec::<i64>::new());
}

#[test]
fn insert_orders_values() {
    let mut tree = BinarySearchTree::new();
    for v in [5, 3, 7, 1, 9] {
        tree.insert(v);
    }
    assert_eq!(values(&tree), vec![1, 3, 5, 7, 9]);
    assert_eq!(tree.height(), 3);
    let root = tree.root.as_ref().unwrap();
    assert_eq!(root.value, 5);
    assert_eq!(root.left.as_ref().unwrap().value, 3);
    assert_eq!(root.right.as_ref().unwrap().value, 7);
}

#[test]
fn equal_values_go_right() {
    let mut tree = BinarySearchTree::new();
    tree.insert(4);
    tree.insert(4);
    tree.insert(4);
    assert_eq!(values(&tree), vec![4, 4, 4]);
    assert_eq!(tree.height(), 3);
    let root = tree.root.as_ref().unwrap();
    assert!(root.left.is_none());
    assert_eq!(root.right.as_ref().unwrap().value, 4);
}

#[test]
fn sorted_inserts_make_a_path() {
    let mut tree = BinarySearchTree::new();
    for v in 0..10 {
        tree.insert(v);
    }
    assert_eq!(tree.height(), 10);
    assert_eq!(values(&tree), (0..10).collect::<Vec<i64>>());
}

#[test]
fn extreme_values() {
    let mut tree = BinarySearchTree::new();
    tree.insert(i64::MAX);
    tree.insert(i64::MIN);
    tree.insert(0);
    assert_eq!(values(&tree), vec![i64::MIN, 0, i64::MAX]);
    assert_eq!(tree.height(), 3);
}

#[test]
fn node_new_has_no_children() {
    let n = Node::new("x");
    assert_eq!(n.value, "x");
    assert!(n.left.is_none() && n.right.is_none());
}
