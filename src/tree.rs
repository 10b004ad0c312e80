//! An unbalanced binary search tree of integers.
use vstd::multiset::Multiset;
use vstd::prelude::*;
use vstd::seq_lib::{lemma_multiset_commutative, to_multiset_contains};

verus! {

/// A node of the tree: a value and two optional subtrees.
pub struct Node<T> {
    pub value: T,
    pub left: Option<Box<Node<T>>>,
    pub right: Option<Box<Node<T>>>,
}

impl<T> Node<T> {
    /// A node with no children.
    pub fn new(value: T) -> (r: Self)
        ensures
            r.value == value,
            r.left is None,
            r.right is None,
    {
        Node { value, left: None, right: None }
    }

    /// The values of a subtree, left to right.
    pub open spec fn inorder_of(node: Option<Box<Node<T>>>) -> Seq<T>
        decreases node,
    {
        match node {
            None => Seq::empty(),
            Some(n) => Self::inorder_of(n.left) + seq![n.value] + Self::inorder_of(n.right),
        }
    }

    /// The number of nodes on the longest path from the root of a subtree
    /// down to a leaf; zero for an empty subtree.
    pub open spec fn height_of(node: Option<Box<Node<T>>>) -> nat
        decreases node,
    {
        match node {
            None => 0,
            Some(n) => {
                let l = Self::height_of(n.left);
                let r = Self::height_of(n.right);
                1 + if l >= r {
                    l
                } else {
                    r
                }
            },
        }
    }
}

impl Node<i64> {
    /// The subtree after inserting `v`: a new leaf at the empty place found
    /// by going left where `v` is below a node's value, else right.
    pub open spec fn inserted(node: Option<Box<Node<i64>>>, v: i64) -> Option<Box<Node<i64>>>
        decreases node,
    {
        match node {
            None => Some(Box::new(Node { value: v, left: None, right: None })),
            Some(n) => if v < n.value {
                Some(Box::new(Node { left: Self::inserted(n.left, v), ..*n }))
            } else {
                Some(Box::new(Node { right: Self::inserted(n.right, v), ..*n }))
            },
        }
    }

    /// The values of a subtree as a multiset.
    pub open spec fn elems_of(node: Option<Box<Node<i64>>>) -> Multiset<i64>
        decreases node,
    {
        match node {
            None => Multiset::empty(),
            Some(n) => Self::elems_of(n.left).add(Self::elems_of(n.right)).insert(n.value),
        }
    }

    /// The ordering property: every value in a left subtree is below its
    /// node, every value in a right subtree is at least its node.
    pub open spec fn ordered(node: Option<Box<Node<i64>>>) -> bool
        decreases node,
    {
        match node {
            None => true,
            Some(n) => {
                &&& forall|x: i64| Self::elems_of(n.left).contains(x) ==> x < n.value
                &&& forall|x: i64| Self::elems_of(n.right).contains(x) ==> x >= n.value
                &&& Self::ordered(n.left)
                &&& Self::ordered(n.right)
            },
        }
    }
}

/// A binary search tree; equal values go to the right.
pub struct BinarySearchTree<T> {
    pub root: Option<Box<Node<T>>>,
}

/// Walks the values of a tree in order.
pub struct InOrderIterator {
    items: Vec<i64>,
    pos: usize,
}

impl InOrderIterator {
    /// The values not yet handed out, in order.
    pub closed spec fn remaining(&self) -> Seq<i64> {
        if self.pos <= self.items@.len() {
            self.items@.subrange(self.pos as int, self.items@.len() as int)
        } else {
            Seq::empty()
        }
    }

    fn new(root: &Option<Box<Node<i64>>>) -> (r: Self)
        ensures
            r.remaining() == Node::<i64>::inorder_of(*root),
    {
        let mut items: Vec<i64> = Vec::new();
        collect(root, &mut items);
        let r = InOrderIterator { items, pos: 0 };
        assert(r.remaining() =~= r.items@);
        r
    }

    /// The next value in order, or `None` once all have been handed out.
    pub fn next(&mut self) -> (r: Option<i64>)
        ensures
            old(self).remaining().len() == 0 ==> r is None && final(self).remaining() == old(
                self,
            ).remaining(),
            old(self).remaining().len() > 0 ==> r == Some(old(self).remaining()[0])
                && final(self).remaining() == old(self).remaining().drop_first(),
    {
        if self.pos < self.items.len() {
            let v = self.items[self.pos];
            self.pos = self.pos + 1;
            assert(self.remaining() =~= old(self).remaining().drop_first());
            Some(v)
        } else {
            None
        }
    }
}

/// Appends the values of a subtree to `out`, in order.
fn collect(node: &Option<Box<Node<i64>>>, out: &mut Vec<i64>)
    ensures
        final(out)@ == old(out)@ + Node::<i64>::inorder_of(*node),
    decreases *node,
{
    match node {
        None => {
            assert(old(out)@ + Seq::<i64>::empty() =~= old(out)@);
        },
        Some(n) => {
            collect(&n.left, out);
            out.push(n.value);
            collect(&n.right, out);
            assert(final(out)@ =~= old(out)@ + Node::<i64>::inorder_of(*node));
        },
    }
}

/// An insertion makes a tree at most one level higher.
pub proof fn lemma_insert_height(node: Option<Box<Node<i64>>>, v: i64)
    ensures
        Node::<i64>::height_of(Node::<i64>::inserted(node, v)) <= Node::<i64>::height_of(node) + 1,
    decreases node,
{
    match node {
        None => {},
        Some(n) => {
            lemma_insert_height(n.left, v);
            lemma_insert_height(n.right, v);
        },
    }
}

/// Whether a sequence of values is in non-decreasing order.
pub open spec fn sorted(s: Seq<i64>) -> bool {
    forall|i: int, j: int| 0 <= i < j < s.len() ==> s[i] <= s[j]
}

/// In a tree with the ordering property, the in-order walk is sorted and
/// holds exactly the tree's values.
pub proof fn lemma_inorder_sorted(node: Option<Box<Node<i64>>>)
    requires
        Node::<i64>::ordered(node),
    ensures
        sorted(Node::<i64>::inorder_of(node)),
        Node::<i64>::inorder_of(node).to_multiset() == Node::<i64>::elems_of(node),
    decreases node,
{
    broadcast use vstd::seq_lib::group_to_multiset_ensures, vstd::multiset::group_multiset_axioms;

    match node {
        None => {
            assert(Seq::<i64>::empty().to_multiset() =~= Multiset::<i64>::empty()) by {
                vstd::seq_lib::to_multiset_len(Seq::<i64>::empty());
            }
        },
        Some(n) => {
            lemma_inorder_sorted(n.left);
            lemma_inorder_sorted(n.right);
            let l = Node::<i64>::inorder_of(n.left);
            let r = Node::<i64>::inorder_of(n.right);
            let v = n.value;
            let s = l + seq![v] + r;
            lemma_multiset_commutative(l + seq![v], r);
            lemma_multiset_commutative(l, seq![v]);
            assert(seq![v] =~= Seq::<i64>::empty().push(v));
            assert(Seq::<i64>::empty().to_multiset() =~= Multiset::<i64>::empty()) by {
                vstd::seq_lib::to_multiset_len(Seq::<i64>::empty());
            }
            vstd::seq_lib::to_multiset_build(Seq::<i64>::empty(), v);
            assert(s.to_multiset() =~= Node::<i64>::elems_of(node));
            assert forall|i: int, j: int| 0 <= i < j < s.len() implies s[i] <= s[j] by {
                if i < l.len() {
                    to_multiset_contains(l, s[i]);
                    assert(l.contains(s[i]));
                    assert(Node::<i64>::elems_of(n.left).contains(s[i]));
                }
                if j > l.len() {
                    let rj = j - l.len() - 1;
                    assert(r[rj] == s[j]);
                    to_multiset_contains(r, s[j]);
                    assert(r.contains(s[j]));
                    assert(Node::<i64>::elems_of(n.right).contains(s[j]));
                }
            }
        },
    }
}

impl BinarySearchTree<i64> {
    /// The values of the tree, left to right.
    pub open spec fn inorder_spec(&self) -> Seq<i64> {
        Node::<i64>::inorder_of(self.root)
    }

    /// The values of the tree as a multiset.
    pub open spec fn elems(&self) -> Multiset<i64> {
        Node::<i64>::elems_of(self.root)
    }

    /// The ordering property holds at every node.
    pub open spec fn well_formed(&self) -> bool {
        Node::<i64>::ordered(self.root)
    }

    /// The height of the tree.
    pub open spec fn height_spec(&self) -> nat {
        Node::<i64>::height_of(self.root)
    }

    /// An empty tree.
    pub fn new() -> (r: Self)
        ensures
            r.root is None,
            r.well_formed(),
            r.elems() == Multiset::<i64>::empty(),
    {
        BinarySearchTree { root: None }
    }

    /// Adds `value`: below the first node on its path where it is smaller
    /// go left, else right, until an empty place is found.
    pub fn insert(&mut self, value: i64)
        ensures
            final(self).root == Node::<i64>::inserted(old(self).root, value),
            final(self).height_spec() <= old(self).height_spec() + 1,
            old(self).well_formed() ==> final(self).well_formed(),
            final(self).elems() == old(self).elems().insert(value),
    {
        Self::insert_recursive(&mut self.root, value);
        proof {
            lemma_insert_height(old(self).root, value);
        }
    }

    fn insert_recursive(node: &mut Option<Box<Node<i64>>>, value: i64)
        ensures
            *final(node) == Node::<i64>::inserted(*old(node), value),
            Node::<i64>::ordered(*old(node)) ==> Node::<i64>::ordered(*final(node)),
            Node::<i64>::elems_of(*final(node)) == Node::<i64>::elems_of(*old(node)).insert(value),
        decreases *old(node),
    {
        let ghost orig = *node;
        match node.take() {
            None => {
                *node = Some(Box::new(Node::new(value)));
                assert(Multiset::<i64>::empty().add(Multiset::<i64>::empty()) =~= Multiset::<
                    i64,
                >::empty());
            },
            Some(mut n) => {
                let ghost old_left = n.left;
                let ghost old_right = n.right;
                if value < n.value {
                    Self::insert_recursive(&mut n.left, value);
                    proof {
                        if Node::<i64>::ordered(orig) {
                            assert forall|x: i64| Node::<i64>::elems_of(n.left).contains(x) implies x
                                < n.value by {
                                if x != value {
                                    assert(Node::<i64>::elems_of(old_left).contains(x));
                                }
                            }
                        }
                    }
                    assert(Node::<i64>::elems_of(n.left).add(Node::<i64>::elems_of(n.right)).insert(
                        n.value,
                    ) =~= Node::<i64>::elems_of(old_left).add(
                        Node::<i64>::elems_of(n.right),
                    ).insert(n.value).insert(value));
                } else {
                    Self::insert_recursive(&mut n.right, value);
                    proof {
                        if Node::<i64>::ordered(orig) {
                            assert forall|x: i64| Node::<i64>::elems_of(n.right).contains(x) implies x
                                >= n.value by {
                                if x != value {
                                    assert(Node::<i64>::elems_of(old_right).contains(x));
                                }
                            }
                        }
                    }
                    assert(Node::<i64>::elems_of(n.left).add(Node::<i64>::elems_of(n.right)).insert(
                        n.value,
                    ) =~= Node::<i64>::elems_of(n.left).add(
                        Node::<i64>::elems_of(old_right),
                    ).insert(n.value).insert(value));
                }
                *node = Some(n);
            },
        }
    }

    /// The number of nodes on the longest root-to-leaf path.
    pub fn height(&self) -> (r: usize)
        requires
            self.height_spec() <= usize::MAX,
        ensures
            r == self.height_spec(),
    {
        self.height_recursive(&self.root)
    }

    fn height_recursive(&self, node: &Option<Box<Node<i64>>>) -> (r: usize)
        requires
            Node::<i64>::height_of(*node) <= usize::MAX,
        ensures
            r == Node::<i64>::height_of(*node),
        decreases *node,
    {
        match node {
            None => 0,
            Some(n) => {
                let l = self.height_recursive(&n.left);
                let r = self.height_recursive(&n.right);
                1 + if l >= r {
                    l
                } else {
                    r
                }
            },
        }
    }

    /// Walks the values in order.
    pub fn inorder(&self) -> (r: InOrderIterator)
        ensures
            r.remaining() == self.inorder_spec(),
            self.well_formed() ==> sorted(r.remaining()) && r.remaining().to_multiset()
                == self.elems(),
    {
        proof {
            if self.well_formed() {
                lemma_inorder_sorted(self.root);
            }
        }
        InOrderIterator::new(&self.root)
    }
}

} // verus!
