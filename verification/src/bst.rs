//! A binary search tree: a set of values in order.
use std::cmp::Ordering;
use vstd::prelude::*;
use vstd::std_specs::cmp::OrdSpec;

verus! {

/// A node of the tree: a value, the smaller values to its left and the
/// larger ones to its right.
pub struct TreeNode<T: Ord> {
    pub value: T,
    pub left: Option<Box<TreeNode<T>>>,
    pub right: Option<Box<TreeNode<T>>>,
}

/// A set of values, kept as a binary search tree.
pub struct BinarySearchTree<T: Ord> {
    pub root: Option<Box<TreeNode<T>>>,
}

/// Whether the comparison of `T` is a total order in which two values are
/// equal only where they are the same value.
pub open spec fn is_total_order<T: Ord>() -> bool {
    &&& T::obeys_cmp_spec()
    &&& forall|x: T, y: T| #[trigger] x.cmp_spec(&y) == Ordering::Equal <==> x == y
    &&& forall|x: T, y: T|
        #[trigger] x.cmp_spec(&y) == Ordering::Less <==> y.cmp_spec(&x) == Ordering::Greater
    &&& forall|x: T, y: T, z: T|
        #[trigger] x.cmp_spec(&y) == Ordering::Less && #[trigger] y.cmp_spec(&z) == Ordering::Less
            ==> x.cmp_spec(&z) == Ordering::Less
}

/// The values of a tree.
pub open spec fn values_of<T: Ord>(tree: Option<Box<TreeNode<T>>>) -> Set<T>
    decreases tree,
{
    match tree {
        None => Set::empty(),
        Some(node) => values_of(node.left).union(values_of(node.right)).insert(node.value),
    }
}

/// Whether a tree is in order: at each node, the values to the left are
/// smaller than the value of the node and the values to the right larger.
pub open spec fn in_order<T: Ord>(tree: Option<Box<TreeNode<T>>>) -> bool
    decreases tree,
{
    match tree {
        None => true,
        Some(node) => {
            &&& in_order(node.left)
            &&& in_order(node.right)
            &&& forall|x: T| #[trigger]
                values_of(node.left).contains(x) ==> x.cmp_spec(&node.value) == Ordering::Less
            &&& forall|x: T| #[trigger]
                values_of(node.right).contains(x) ==> x.cmp_spec(&node.value)
                    == Ordering::Greater
        },
    }
}

/// A tree with `value` put in: in a new node at the place to which the
/// comparisons with the values of the tree lead, and nowhere where the
/// tree holds the value already.
pub open spec fn tree_with<T: Ord>(tree: Option<Box<TreeNode<T>>>, value: T) -> Option<
    Box<TreeNode<T>>,
>
    decreases tree,
{
    match tree {
        None => Some(Box::new(TreeNode { value, left: None, right: None })),
        Some(node) => match value.cmp_spec(&node.value) {
            Ordering::Less => Some(
                Box::new(
                    TreeNode {
                        value: node.value,
                        left: tree_with(node.left, value),
                        right: node.right,
                    },
                ),
            ),
            Ordering::Greater => Some(
                Box::new(
                    TreeNode {
                        value: node.value,
                        left: node.left,
                        right: tree_with(node.right, value),
                    },
                ),
            ),
            Ordering::Equal => tree,
        },
    }
}

impl<T: Ord> TreeNode<T> {
    /// The values of the node and of the nodes below it.
    pub open spec fn values(self) -> Set<T> {
        values_of(self.left).union(values_of(self.right)).insert(self.value)
    }

    /// Whether the node and the nodes below it are in order.
    pub open spec fn is_ordered(self) -> bool {
        &&& in_order(self.left)
        &&& in_order(self.right)
        &&& forall|x: T| #[trigger]
            values_of(self.left).contains(x) ==> x.cmp_spec(&self.value) == Ordering::Less
        &&& forall|x: T| #[trigger]
            values_of(self.right).contains(x) ==> x.cmp_spec(&self.value) == Ordering::Greater
    }

    /// A node with `value` and nothing below it.
    pub fn new(value: T) -> (node: TreeNode<T>)
        ensures
            node.value == value,
            node.left is None,
            node.right is None,
            node.values() == Set::<T>::empty().insert(value),
            node.is_ordered(),
    {
        let node = TreeNode { value, left: None, right: None };
        assert(node.values() =~= Set::<T>::empty().insert(value));
        node
    }

    /// Puts `value` below the node, to the left where it is smaller than
    /// the value of the node and to the right where it is larger.  A value
    /// that the tree holds already changes nothing.
    pub fn insert(&mut self, value: T)
        requires
            is_total_order::<T>(),
            old(self).is_ordered(),
        ensures
            final(self).is_ordered(),
            final(self).values() == old(self).values().insert(value),
            Some(Box::new(*final(self))) == tree_with(Some(Box::new(*old(self))), value),
            old(self).values().contains(value) ==> *final(self) == *old(self),
        decreases *old(self),
    {
        match value.cmp(&self.value) {
            Ordering::Less => {
                let ghost before = self.left;
                match &mut self.left {
                    Some(left) => {
                        left.insert(value);
                    },
                    None => {
                        self.left = Some(Box::new(TreeNode::new(value)));
                    },
                }
                proof {
                    assert(self.left == tree_with(before, value));
                    assert(*self == TreeNode {
                        value: old(self).value,
                        left: tree_with(before, value),
                        right: old(self).right,
                    });
                    assert(values_of(self.left) =~= values_of(before).insert(value));
                    assert(self.values() =~= old(self).values().insert(value));
                    if old(self).values().contains(value) {
                        assert(!values_of(self.right).contains(value));
                        assert(values_of(before).contains(value));
                    }
                }
            },
            Ordering::Greater => {
                let ghost before = self.right;
                match &mut self.right {
                    Some(right) => {
                        right.insert(value);
                    },
                    None => {
                        self.right = Some(Box::new(TreeNode::new(value)));
                    },
                }
                proof {
                    assert(self.right == tree_with(before, value));
                    assert(*self == TreeNode {
                        value: old(self).value,
                        left: old(self).left,
                        right: tree_with(before, value),
                    });
                    assert(values_of(self.right) =~= values_of(before).insert(value));
                    assert(self.values() =~= old(self).values().insert(value));
                    if old(self).values().contains(value) {
                        assert(!values_of(self.left).contains(value));
                        assert(values_of(before).contains(value));
                    }
                }
            },
            Ordering::Equal => {
                assert(self.values() =~= old(self).values().insert(value));
            },
        }
    }
}

impl<T: Ord> View for BinarySearchTree<T> {
    type V = Set<T>;

    open spec fn view(&self) -> Set<T> {
        values_of(self.root)
    }
}

impl<T: Ord> BinarySearchTree<T> {
    /// Whether the tree is in order.
    pub open spec fn is_ordered(self) -> bool {
        in_order(self.root)
    }

    /// The empty tree.
    pub fn new() -> (tree: BinarySearchTree<T>)
        ensures
            tree@ == Set::<T>::empty(),
            tree.is_ordered(),
            tree.root is None,
    {
        BinarySearchTree { root: None }
    }

    /// Puts `value` into the tree.  A value that the tree holds already
    /// changes nothing.
    pub fn insert(&mut self, value: T)
        requires
            is_total_order::<T>(),
            old(self).is_ordered(),
        ensures
            final(self).is_ordered(),
            final(self)@ == old(self)@.insert(value),
            final(self).root == tree_with(old(self).root, value),
            old(self)@.contains(value) ==> *final(self) == *old(self),
    {
        match &mut self.root {
            Some(root) => {
                root.insert(value);
            },
            None => {
                self.root = Some(Box::new(TreeNode::new(value)));
                assert(self@ =~= old(self)@.insert(value));
            },
        }
    }

    /// Tells whether the tree holds `value`.
    pub fn search(&self, value: T) -> (found: bool)
        requires
            is_total_order::<T>(),
            self.is_ordered(),
        ensures
            found == self@.contains(value),
    {
        let mut current: &Option<Box<TreeNode<T>>> = &self.root;
        loop
            invariant
                is_total_order::<T>(),
                in_order(*current),
                self@.contains(value) <==> values_of(*current).contains(value),
            decreases *current,
        {
            match current {
                None => {
                    return false;
                },
                Some(node) => {
                    match value.cmp(&node.value) {
                        Ordering::Less => {
                            assert(!values_of(node.right).contains(value));
                            current = &node.left;
                        },
                        Ordering::Greater => {
                            assert(!values_of(node.left).contains(value));
                            current = &node.right;
                        },
                        Ordering::Equal => {
                            return true;
                        },
                    }
                },
            }
        }
    }
}

/// The comparison of the integers of 32 bits is a total order.
pub proof fn lemma_i32_is_total_order()
    ensures
        is_total_order::<i32>(),
{
}

} // verus!
