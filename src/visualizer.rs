//! Text renderings of a binary search tree.
use vstd::prelude::*;

use crate::tree::{BinarySearchTree, Node};

verus! {

#[verifier::external_type_specification]
#[verifier::external_body]
pub struct ExIoError(std::io::Error);

/// Why a rendering, or saving one, failed.
pub enum VisualizerError {
    /// The tree structure is invalid.
    InvalidTree(String),
    /// Reading or writing failed.
    IoError(std::io::Error),
}

impl VisualizerError {
    /// The description carried by an invalid-tree error.
    pub fn detail(&self) -> (r: Option<&String>)
        ensures
            self matches VisualizerError::InvalidTree(s) ==> r == Some(s),
            self is IoError ==> r is None,
    {
        match self {
            VisualizerError::InvalidTree(s) => Some(s),
            VisualizerError::IoError(_) => None,
        }
    }
}

/// Something that renders a tree as text.
pub trait TreeVisualizer<T> {
    /// Whether this visualizer can draw `tree`.
    spec fn drawable(&self, tree: &BinarySearchTree<T>) -> bool;

    /// The text that draws `tree`.
    spec fn drawing(&self, tree: &BinarySearchTree<T>) -> Seq<char>;

    fn visualize(&self, tree: &BinarySearchTree<T>) -> (r: Result<String, VisualizerError>)
        ensures
            r is Ok <==> self.drawable(tree),
            r is Ok ==> r->Ok_0@ == self.drawing(tree),
    ;
}

/// The decimal digits of `n`, most significant first.
pub open spec fn digits_of(n: nat) -> Seq<char>
    decreases n,
{
    let d = seq!['0', '1', '2', '3', '4', '5', '6', '7', '8', '9'];
    if n < 10 {
        seq![d[n as int]]
    } else {
        digits_of(n / 10) + seq![d[(n % 10) as int]]
    }
}

/// An integer written in decimal, with a leading `-` when negative.
pub open spec fn decimal_text(v: int) -> Seq<char> {
    if v < 0 {
        seq!['-'] + digits_of((-v) as nat)
    } else {
        digits_of(v as nat)
    }
}

/// Relies on std's `ToString::to_string` for `i64`, which writes the value
/// in decimal with a leading `-` when negative.
#[verifier::external_body]
fn decimal(v: i64) -> (r: String)
    ensures
        r@ == decimal_text(v as int),
{
    v.to_string()
}

/// The branch drawn before a node: a left child hangs below, a right
/// child above.
pub open spec fn connector(is_left: bool) -> Seq<char> {
    if is_left {
        "└── "@
    } else {
        "┌── "@
    }
}

/// What the children of a node add to the prefix.
pub open spec fn indent(is_left: bool) -> Seq<char> {
    if is_left {
        "    "@
    } else {
        "│   "@
    }
}

/// The lines that draw a subtree: the node itself, then its right subtree,
/// then its left subtree, each line ending in a newline.
pub open spec fn render(n: Node<i64>, prefix: Seq<char>, is_left: bool) -> Seq<char>
    decreases n,
{
    let np = prefix + indent(is_left);
    prefix + connector(is_left) + decimal_text(n.value as int) + "\n"@ + match n.right {
        Some(r) => render(*r, np, false),
        None => Seq::empty(),
    } + match n.left {
        Some(l) => render(*l, np, true),
        None => Seq::empty(),
    }
}

/// The drawing of a whole tree; empty for an empty tree.
pub open spec fn ascii_of(tree: BinarySearchTree<i64>) -> Seq<char> {
    match tree.root {
        Some(n) => render(*n, Seq::empty(), true),
        None => Seq::empty(),
    }
}

/// Draws a tree as indented lines of text.
pub struct AsciiVisualizer;

impl AsciiVisualizer {
    /// The drawing of `tree`.
    pub fn render(&self, tree: &BinarySearchTree<i64>) -> (r: String)
        ensures
            r@ == ascii_of(*tree),
    {
        let mut result = String::new();
        match &tree.root {
            Some(root) => {
                self.visualize_node(root, "", true, &mut result);
                proof {
                    reveal_strlit("");
                }
                assert(""@ =~= Seq::<char>::empty());
                assert(result@ =~= ascii_of(*tree));
            },
            None => {},
        }
        result
    }

    fn visualize_node(&self, node: &Node<i64>, prefix: &str, is_left: bool, result: &mut String)
        ensures
            final(result)@ == old(result)@ + render(*node, prefix@, is_left),
        decreases *node,
    {
        let connector = if is_left {
            "└── "
        } else {
            "┌── "
        };
        result.append(prefix);
        result.append(connector);
        let d = decimal(node.value);
        result.append(d.as_str());
        result.append("\n");
        let mut new_prefix = String::from_str(prefix);
        new_prefix.append(
            if is_left {
                "    "
            } else {
                "│   "
            },
        );
        match &node.right {
            Some(right) => {
                self.visualize_node(right, new_prefix.as_str(), false, result);
            },
            None => {},
        }
        match &node.left {
            Some(left) => {
                self.visualize_node(left, new_prefix.as_str(), true, result);
            },
            None => {},
        }
        assert(result@ =~= old(result)@ + render(*node, prefix@, is_left));
    }
}

impl TreeVisualizer<i64> for AsciiVisualizer {
    open spec fn drawable(&self, tree: &BinarySearchTree<i64>) -> bool {
        true
    }

    open spec fn drawing(&self, tree: &BinarySearchTree<i64>) -> Seq<char> {
        ascii_of(*tree)
    }

    fn visualize(&self, tree: &BinarySearchTree<i64>) -> Result<String, VisualizerError> {
        Ok(self.render(tree))
    }
}

} // verus!
