use mini_tokio::{AsciiVisualizer, BinarySearchTree, TreeVisualizer, VisualizerError};

#[test]
fn ascii_drawing_of_five_values() {
    let mut tree = BinarySearchTree::new();
    for v in [5, 3, 7, 1, 9] {
        tree.insert(v);
    }
    let expected = "└── 5\n    ┌── 7\n    │   ┌── 9\n    └── 3\n        └── 1\n";
    assert_eq!(AsciiVisualizer.render(&tree), expected);
    assert_eq!(AsciiVisualizer.visualize(&tree).ok().unwrap(), expected);
}

#[test]
fn ascii_drawing_of_empty_tree() {
    let tree: BinarySearchTree<i64> = BinarySearchTree::new();
    assert_eq!(AsciiVisualizer.render(&tree), "");
}

#[test]
fn ascii_drawing_of_negative_values() {
    let mut tree = BinarySearchTree::new();
    tree.insert(-12);
    tree.insert(i64::MIN);
    assert_eq!(AsciiVisualizer.render(&tree), "└── -12\n    └── -9223372036854775808\n");
}

#[test]
fn visualizer_error_detail() {
    let e = VisualizerError::InvalidTree("cycle".to_string());
    assert_eq!(e.detail().unwrap(), "cycle");
    let io = VisualizerError::IoError(std::io::Error::new(std::io::ErrorKind::Other, "disk"));
    assert!(io.detail().is_none());
}
