//! A binary tree of owned nodes.
//!
//! The tree keeps no order among its keys by itself: children are put where
//! the caller asks. `min`, `max` and `contains` walk it the way a search tree
//! is walked, and the laws in this file say what they find when the keys do
//! stand in search order.

use crate::order::less;
use crate::order::Comparison;
use crate::order::TotalOrder;
use vstd::prelude::*;

verus! {

/// A child of a node: a subtree, or `None` where the node has no such child.
pub type Link<T> = Option<Box<BinaryTree<T>>>;

/// A node with its key and its two subtrees.
#[derive(Debug, PartialEq)]
pub struct BinaryTree<T> {
    pub key: T,
    pub left: Link<T>,
    pub right: Link<T>,
}

/// Number of nodes of the tree behind a link; 0 where there is no tree.
pub open spec fn link_node_count<T>(link: Link<T>) -> nat
    decreases link,
{
    match link {
        Some(t) => t.node_count(),
        None => 0,
    }
}

/// Number of leaves of the tree behind a link; 0 where there is no tree.
pub open spec fn link_leaf_count<T>(link: Link<T>) -> nat
    decreases link,
{
    match link {
        Some(t) => t.leaf_count(),
        None => 0,
    }
}

/// Height of the tree behind a link; 0 where there is no tree.
pub open spec fn link_height<T>(link: Link<T>) -> nat
    decreases link,
{
    match link {
        Some(t) => t.height(),
        None => 0,
    }
}

/// The keys of the tree behind a link; none where there is no tree.
pub open spec fn link_keys<T>(link: Link<T>) -> Set<T>
    decreases link,
{
    match link {
        Some(t) => t.keys(),
        None => Set::empty(),
    }
}

impl<T> BinaryTree<T> {
    /// Number of nodes of the tree.
    pub open spec fn node_count(self) -> nat
        decreases self,
    {
        1 + link_node_count(self.left) + link_node_count(self.right)
    }

    /// Number of nodes without children.
    pub open spec fn leaf_count(self) -> nat
        decreases self,
    {
        if self.left is None && self.right is None {
            1
        } else {
            link_leaf_count(self.left) + link_leaf_count(self.right)
        }
    }

    /// Number of nodes on the longest path from the root to a leaf.
    pub open spec fn height(self) -> nat
        decreases self,
    {
        if link_height(self.left) >= link_height(self.right) {
            1 + link_height(self.left)
        } else {
            1 + link_height(self.right)
        }
    }

    /// The keys of all nodes.
    pub open spec fn keys(self) -> Set<T>
        decreases self,
    {
        link_keys(self.left).union(link_keys(self.right)).insert(self.key)
    }

    /// The key found by going left from the root as long as there is a left child.
    pub open spec fn leftmost(self) -> T
        decreases self,
    {
        match self.left {
            Some(l) => l.leftmost(),
            None => self.key,
        }
    }

    /// The key found by going right from the root as long as there is a right child.
    pub open spec fn rightmost(self) -> T
        decreases self,
    {
        match self.right {
            Some(r) => r.rightmost(),
            None => self.key,
        }
    }

    /// A tree has no more leaves than nodes, and is no higher than it has nodes.
    pub proof fn lemma_counts(self)
        ensures
            1 <= self.leaf_count() <= self.node_count(),
            1 <= self.height() <= self.node_count(),
        decreases self,
    {
        if let Some(l) = self.left {
            l.lemma_counts();
        }
        if let Some(r) = self.right {
            r.lemma_counts();
        }
    }
}

impl<T: TotalOrder> BinaryTree<T> {
    /// Whether a search for `key` finds it: the walk starts at the root, ends
    /// at a node that holds `key`, goes right from a node with a smaller key
    /// and left from one with a greater key, and fails where there is no
    /// child to go to.
    pub open spec fn search(self, key: T) -> bool
        decreases self,
    {
        if self.key == key {
            true
        } else if self.key.leq(key) {
            match self.right {
                Some(r) => r.search(key),
                None => false,
            }
        } else {
            match self.left {
                Some(l) => l.search(key),
                None => false,
            }
        }
    }

    /// Search order: at every node, the keys of the left subtree are
    /// strictly smaller than the node's key and those of the right subtree
    /// strictly greater.
    pub open spec fn is_search_tree(self) -> bool
        decreases self,
    {
        &&& match self.left {
            Some(l) => l.is_search_tree() && forall|k: T| #[trigger]
                l.keys().contains(k) ==> less(k, self.key),
            None => true,
        }
        &&& match self.right {
            Some(r) => r.is_search_tree() && forall|k: T| #[trigger]
                r.keys().contains(k) ==> less(self.key, k),
            None => true,
        }
    }
}

impl<T: TotalOrder> BinaryTree<T> {
    /// The leftmost and the rightmost key are keys of the tree.
    pub proof fn lemma_outer_keys(self)
        ensures
            self.keys().contains(self.leftmost()),
            self.keys().contains(self.rightmost()),
        decreases self,
    {
        if let Some(l) = self.left {
            l.lemma_outer_keys();
        }
        if let Some(r) = self.right {
            r.lemma_outer_keys();
        }
    }

    /// In a search tree, a search finds exactly the keys of the tree.
    pub proof fn lemma_search_finds_keys(self, key: T)
        requires
            self.is_search_tree(),
        ensures
            self.search(key) <==> self.keys().contains(key),
        decreases self,
    {
        if self.key != key {
            T::leq_total(self.key, key);
            if let Some(l) = self.left {
                l.lemma_search_finds_keys(key);
                if l.keys().contains(key) && self.key.leq(key) {
                    T::leq_antisymmetric(self.key, key);
                }
            }
            if let Some(r) = self.right {
                r.lemma_search_finds_keys(key);
                if r.keys().contains(key) && key.leq(self.key) {
                    T::leq_antisymmetric(self.key, key);
                }
            }
        }
    }

    /// In a search tree, no key is smaller than the leftmost one.
    pub proof fn lemma_leftmost_is_least(self, key: T)
        requires
            self.is_search_tree(),
            self.keys().contains(key),
        ensures
            self.leftmost().leq(key),
        decreases self,
    {
        match self.left {
            Some(l) => {
                l.lemma_outer_keys();
                assert(less(l.leftmost(), self.key));
                if l.keys().contains(key) {
                    l.lemma_leftmost_is_least(key);
                } else if key != self.key {
                    let r = self.right.unwrap();
                    assert(r.keys().contains(key));
                    assert(less(self.key, key));
                    T::leq_transitive(l.leftmost(), self.key, key);
                }
            },
            None => {
                T::leq_reflexive(self.key);
                if key != self.key {
                    assert(self.right.unwrap().keys().contains(key));
                }
            },
        }
    }

    /// In a search tree, no key is greater than the rightmost one.
    pub proof fn lemma_rightmost_is_greatest(self, key: T)
        requires
            self.is_search_tree(),
            self.keys().contains(key),
        ensures
            key.leq(self.rightmost()),
        decreases self,
    {
        match self.right {
            Some(r) => {
                r.lemma_outer_keys();
                assert(less(self.key, r.rightmost()));
                if r.keys().contains(key) {
                    r.lemma_rightmost_is_greatest(key);
                } else if key != self.key {
                    let l = self.left.unwrap();
                    assert(l.keys().contains(key));
                    assert(less(key, self.key));
                    T::leq_transitive(key, self.key, r.rightmost());
                }
            },
            None => {
                T::leq_reflexive(self.key);
                if key != self.key {
                    assert(self.left.unwrap().keys().contains(key));
                }
            },
        }
    }
}

impl<T: Copy> BinaryTree<T> {
    /// A tree of one node.
    pub fn new(key: T) -> (t: Self)
        ensures
            t == (BinaryTree { key, left: None, right: None }),
    {
        BinaryTree { key, left: None, right: None }
    }

    /// Puts a new node with `key` in the place of the left child; the former
    /// left subtree becomes the left subtree of the new node.
    pub fn insert_left_node(&mut self, key: T)
        ensures
            *final(self) == (BinaryTree {
                key: old(self).key,
                left: Some(Box::new(BinaryTree { key, left: old(self).left, right: None })),
                right: old(self).right,
            }),
    {
        let below = self.left.take();
        self.left = Some(Box::new(BinaryTree { key, left: below, right: None }));
    }

    /// Puts a new node with `key` in the place of the right child; the former
    /// right subtree becomes the right subtree of the new node.
    pub fn insert_right_node(&mut self, key: T)
        ensures
            *final(self) == (BinaryTree {
                key: old(self).key,
                left: old(self).left,
                right: Some(Box::new(BinaryTree { key, left: None, right: old(self).right })),
            }),
    {
        let below = self.right.take();
        self.right = Some(Box::new(BinaryTree { key, left: None, right: below }));
    }

    /// Number of nodes.
    pub fn size(&self) -> (n: usize)
        requires
            self.node_count() <= usize::MAX,
        ensures
            n == self.node_count(),
    {
        self.calc_size(0)
    }

    /// `size` plus the number of nodes.
    pub fn calc_size(&self, size: usize) -> (n: usize)
        requires
            size + self.node_count() <= usize::MAX,
        ensures
            n == size + self.node_count(),
        decreases self,
    {
        let mut size = size + 1;
        if let Some(l) = &self.left {
            size = l.calc_size(size);
        }
        if let Some(r) = &self.right {
            size = r.calc_size(size);
        }
        size
    }

    /// Number of nodes without children.
    pub fn leaf_size(&self) -> (n: usize)
        requires
            self.leaf_count() <= usize::MAX,
        ensures
            n == self.leaf_count(),
        decreases self,
    {
        if self.left.is_none() && self.right.is_none() {
            return 1;
        }
        let left_leaf = match &self.left {
            Some(l) => l.leaf_size(),
            None => 0,
        };
        let right_leaf = match &self.right {
            Some(r) => r.leaf_size(),
            None => 0,
        };
        left_leaf + right_leaf
    }

    /// Number of nodes with at least one child.
    pub fn none_leaf_size(&self) -> (n: usize)
        requires
            self.node_count() <= usize::MAX,
        ensures
            n == self.node_count() - self.leaf_count(),
    {
        proof {
            self.lemma_counts();
        }
        self.size() - self.leaf_size()
    }

    /// Number of nodes on the longest path from the root to a leaf.
    pub fn depth(&self) -> (d: usize)
        requires
            self.height() <= usize::MAX,
        ensures
            d == self.height(),
        decreases self,
    {
        let mut left_depth: usize = 1;
        if let Some(l) = &self.left {
            left_depth += l.depth();
        }
        let mut right_depth: usize = 1;
        if let Some(r) = &self.right {
            right_depth += r.depth();
        }
        if left_depth >= right_depth {
            left_depth
        } else {
            right_depth
        }
    }

    /// A copy of the left subtree.
    pub fn get_left(&self) -> (l: Link<T>)
        ensures
            l == self.left,
    {
        Self::copy_link(&self.left)
    }

    /// A copy of the right subtree.
    pub fn get_right(&self) -> (r: Link<T>)
        ensures
            r == self.right,
    {
        Self::copy_link(&self.right)
    }

    /// The key of the root.
    pub fn get_key(&self) -> (k: T)
        ensures
            k == self.key,
    {
        self.key
    }

    /// Replaces the key of the root.
    pub fn set_key(&mut self, key: T)
        ensures
            *final(self) == (BinaryTree { key, left: old(self).left, right: old(self).right }),
    {
        self.key = key;
    }

    /// The leftmost key.
    pub fn min(&self) -> (m: Option<&T>)
        ensures
            m == Some(&self.leftmost()),
    {
        let mut node = self;
        loop
            invariant
                node.leftmost() == self.leftmost(),
            ensures
                node.left is None,
                node.leftmost() == self.leftmost(),
            decreases node,
        {
            match &node.left {
                Some(l) => {
                    node = l;
                },
                None => {
                    break ;
                },
            }
        }
        Some(&node.key)
    }

    /// The rightmost key.
    pub fn max(&self) -> (m: Option<&T>)
        ensures
            m == Some(&self.rightmost()),
    {
        let mut node = self;
        loop
            invariant
                node.rightmost() == self.rightmost(),
            ensures
                node.right is None,
                node.rightmost() == self.rightmost(),
            decreases node,
        {
            match &node.right {
                Some(r) => {
                    node = r;
                },
                None => {
                    break ;
                },
            }
        }
        Some(&node.key)
    }

    /// A copy of a subtree.
    fn copy_link(link: &Link<T>) -> (copy: Link<T>)
        ensures
            copy == *link,
        decreases link,
    {
        match link {
            Some(t) => {
                let below: &BinaryTree<T> = &**t;
                Some(Box::new(below.clone()))
            },
            None => None,
        }
    }
}

impl<T: TotalOrder> BinaryTree<T> {
    /// Whether a search for `key` from the root finds it.
    pub fn contains(&self, key: &T) -> (found: bool)
        ensures
            found == self.search(*key),
        decreases self,
    {
        match self.key.compare(key) {
            Comparison::Equal => true,
            Comparison::Less => match &self.right {
                Some(r) => r.contains(key),
                None => false,
            },
            Comparison::Greater => match &self.left {
                Some(l) => l.contains(key),
                None => false,
            },
        }
    }
}

impl<T: Copy> Clone for BinaryTree<T> {
    /// A copy of the whole tree.
    fn clone(&self) -> (t: Self)
        ensures
            t == *self,
        decreases self,
    {
        BinaryTree {
            key: self.key,
            left: Self::copy_link(&self.left),
            right: Self::copy_link(&self.right),
        }
    }
}

} // verus!
