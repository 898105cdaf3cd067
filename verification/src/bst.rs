use vstd::prelude::*;

verus! {

/// A node of an unbalanced binary search tree over `i32` values: everything
/// in the left subtree is smaller than `value`, everything in the right
/// subtree larger, so the tree holds a set (duplicates are ignored).
pub struct TreeNode {
    pub value: i32,
    pub left: Option<Box<TreeNode>>,
    pub right: Option<Box<TreeNode>>,
}

/// A binary search tree: an optional root node.
pub struct BinarySearchTree {
    pub root: Option<Box<TreeNode>>,
}

impl TreeNode {
    /// The set of values held by an optional subtree.
    pub open spec fn optional_as_set(node: Option<Box<TreeNode>>) -> Set<i32>
        decreases node,
    {
        match node {
            None => Set::empty(),
            Some(n) => n.as_set(),
        }
    }

    /// The set of values held by the subtree rooted here.
    pub open spec fn as_set(self) -> Set<i32>
        decreases self,
    {
        Self::optional_as_set(self.left).union(Self::optional_as_set(self.right)).insert(
            self.value,
        )
    }

    /// The search-tree ordering invariant.
    pub open spec fn well_formed(self) -> bool
        decreases self,
    {
        &&& forall|e: i32| Self::optional_as_set(self.left).contains(e) ==> e < self.value
        &&& forall|e: i32| Self::optional_as_set(self.right).contains(e) ==> e > self.value
        &&& match self.left {
            Some(l) => l.well_formed(),
            None => true,
        }
        &&& match self.right {
            Some(r) => r.well_formed(),
            None => true,
        }
    }

    /// A leaf holding exactly `value`.
    pub fn new(value: i32) -> (node: Self)
        ensures
            node.well_formed(),
            node.as_set() == Set::<i32>::empty().insert(value),
    {
        let node = TreeNode { value, left: None, right: None };
        proof {
            assert(node.as_set() =~= Set::<i32>::empty().insert(value));
        }
        node
    }

    /// Insert `value` below an optional node, creating a leaf where the
    /// search runs off the tree.
    fn insert_into_optional(node: &mut Option<Box<TreeNode>>, value: i32)
        requires
            old(node).is_some() ==> old(node).unwrap().well_formed(),
        ensures
            final(node).is_some(),
            final(node).unwrap().well_formed(),
            TreeNode::optional_as_set(*final(node)) =~= TreeNode::optional_as_set(
                *old(node),
            ).insert(value),
        decreases *old(node),
    {
        match node.take() {
            None => {
                *node = Some(Box::new(TreeNode::new(value)));
            },
            Some(mut boxed) => {
                (&mut *boxed).insert(value);
                *node = Some(boxed);
            },
        }
    }

    /// Insert `value` into the subtree rooted here; inserting a value the
    /// node already holds leaves the tree unchanged.
    pub fn insert(&mut self, value: i32)
        requires
            old(self).well_formed(),
        ensures
            final(self).well_formed(),
            final(self).as_set() =~= old(self).as_set().insert(value),
        decreases *old(self),
    {
        if value == self.value {
            proof {
                assert(self.as_set() =~= self.as_set().insert(value));
            }
        } else if value < self.value {
            Self::insert_into_optional(&mut self.left, value);
        } else {
            Self::insert_into_optional(&mut self.right, value);
        }
    }
}

impl View for BinarySearchTree {
    type V = Set<i32>;

    open spec fn view(&self) -> Set<i32> {
        TreeNode::optional_as_set(self.root)
    }
}

impl BinarySearchTree {
    /// The search-tree ordering invariant, trivially true of an empty tree.
    pub open spec fn well_formed(self) -> bool {
        match self.root {
            Some(n) => n.well_formed(),
            None => true,
        }
    }

    /// An empty tree.
    pub fn new() -> (tree: Self)
        ensures
            tree.well_formed(),
            tree@ == Set::<i32>::empty(),
    {
        BinarySearchTree { root: None }
    }

    /// Insert `value`; duplicates leave the held set unchanged.
    pub fn insert(&mut self, value: i32)
        requires
            old(self).well_formed(),
        ensures
            final(self).well_formed(),
            final(self)@ =~= old(self)@.insert(value),
    {
        TreeNode::insert_into_optional(&mut self.root, value);
    }

    /// True exactly when the tree holds `value`.
    pub fn search(&self, value: i32) -> (found: bool)
        requires
            self.well_formed(),
        ensures
            found == self@.contains(value),
    {
        self.search_node(&self.root, &value)
    }

    /// Recursive search below an optional node.
    pub fn search_node(&self, node: &Option<Box<TreeNode>>, value: &i32) -> (found: bool)
        requires
            node.is_some() ==> node.unwrap().well_formed(),
        ensures
            found == TreeNode::optional_as_set(*node).contains(*value),
        decreases node,
    {
        match node {
            None => false,
            Some(n) => {
                if *value == n.value {
                    true
                } else if *value < n.value {
                    proof {
                        assert(!TreeNode::optional_as_set(n.right).contains(*value));
                    }
                    self.search_node(&n.left, value)
                } else {
                    proof {
                        assert(!TreeNode::optional_as_set(n.left).contains(*value));
                    }
                    self.search_node(&n.right, value)
                }
            },
        }
    }
}

} // verus!
