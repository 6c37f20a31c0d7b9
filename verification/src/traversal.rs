//! Traversals of a binary tree: the keys in pre-order, in-order, post-order
//! and level order.
//!
//! Each traversal hands the keys back in the order of the visit, so that a
//! caller can print them or use them otherwise.

use crate::order::less;
use crate::order::less_relation;
use crate::order::TotalOrder;
use crate::tree::link_keys;
use crate::tree::BinaryTree;
use crate::tree::Link;
use std::collections::VecDeque;
use vstd::prelude::*;
use vstd::relations::sorted_by;

verus! {

impl<T> BinaryTree<T> {
    /// The keys with every node before its subtrees, the left subtree before
    /// the right one.
    pub open spec fn preorder_keys(self) -> Seq<T>
        decreases self,
    {
        seq![self.key] + link_preorder_keys(self.left) + link_preorder_keys(self.right)
    }

    /// The keys with every node between its left and its right subtree.
    pub open spec fn inorder_keys(self) -> Seq<T>
        decreases self,
    {
        link_inorder_keys(self.left) + seq![self.key] + link_inorder_keys(self.right)
    }

    /// The keys with every node after its subtrees, the left subtree before
    /// the right one.
    pub open spec fn postorder_keys(self) -> Seq<T>
        decreases self,
    {
        link_postorder_keys(self.left) + link_postorder_keys(self.right) + seq![self.key]
    }
}

/// The pre-order keys of the tree behind a link; none where there is no tree.
pub open spec fn link_preorder_keys<T>(link: Link<T>) -> Seq<T>
    decreases link,
{
    match link {
        Some(t) => t.preorder_keys(),
        None => Seq::empty(),
    }
}

/// The in-order keys of the tree behind a link; none where there is no tree.
pub open spec fn link_inorder_keys<T>(link: Link<T>) -> Seq<T>
    decreases link,
{
    match link {
        Some(t) => t.inorder_keys(),
        None => Seq::empty(),
    }
}

/// The post-order keys of the tree behind a link; none where there is no tree.
pub open spec fn link_postorder_keys<T>(link: Link<T>) -> Seq<T>
    decreases link,
{
    match link {
        Some(t) => t.postorder_keys(),
        None => Seq::empty(),
    }
}

impl<T: Copy> BinaryTree<T> {
    /// The keys in pre-order.
    pub fn preorder(&self) -> (keys: Vec<T>)
        ensures
            keys@ == self.preorder_keys(),
    {
        let mut keys: Vec<T> = Vec::new();
        self.preorder_into(&mut keys);
        keys
    }

    /// Appends the keys in pre-order to `keys`.
    fn preorder_into(&self, keys: &mut Vec<T>)
        ensures
            final(keys)@ == old(keys)@ + self.preorder_keys(),
        decreases self,
    {
        keys.push(self.key);
        match &self.left {
            Some(node) => node.preorder_into(keys),
            None => (),
        }
        match &self.right {
            Some(node) => node.preorder_into(keys),
            None => (),
        }
    }

    /// The keys in in-order.
    pub fn inorder(&self) -> (keys: Vec<T>)
        ensures
            keys@ == self.inorder_keys(),
    {
        let mut keys: Vec<T> = Vec::new();
        self.inorder_into(&mut keys);
        keys
    }

    /// Appends the keys in in-order to `keys`.
    fn inorder_into(&self, keys: &mut Vec<T>)
        ensures
            final(keys)@ == old(keys)@ + self.inorder_keys(),
        decreases self,
    {
        match &self.left {
            Some(node) => node.inorder_into(keys),
            None => (),
        }
        keys.push(self.key);
        match &self.right {
            Some(node) => node.inorder_into(keys),
            None => (),
        }
    }

    /// The keys in post-order.
    pub fn postorder(&self) -> (keys: Vec<T>)
        ensures
            keys@ == self.postorder_keys(),
    {
        let mut keys: Vec<T> = Vec::new();
        self.postorder_into(&mut keys);
        keys
    }

    /// Appends the keys in post-order to `keys`.
    fn postorder_into(&self, keys: &mut Vec<T>)
        ensures
            final(keys)@ == old(keys)@ + self.postorder_keys(),
        decreases self,
    {
        match &self.left {
            Some(node) => node.postorder_into(keys),
            None => (),
        }
        match &self.right {
            Some(node) => node.postorder_into(keys),
            None => (),
        }
        keys.push(self.key);
    }
}

/// The keys in pre-order of the tree behind `bt`.
pub fn preorder<T: Copy>(bt: Link<T>) -> (keys: Vec<T>)
    ensures
        keys@ == link_preorder_keys(bt),
{
    match &bt {
        Some(t) => t.preorder(),
        None => Vec::new(),
    }
}

/// The keys in in-order of the tree behind `bt`.
pub fn inorder<T: Copy>(bt: Link<T>) -> (keys: Vec<T>)
    ensures
        keys@ == link_inorder_keys(bt),
{
    match &bt {
        Some(t) => t.inorder(),
        None => Vec::new(),
    }
}

/// The keys in post-order of the tree behind `bt`.
pub fn postorder<T: Copy>(bt: Link<T>) -> (keys: Vec<T>)
    ensures
        keys@ == link_postorder_keys(bt),
{
    match &bt {
        Some(t) => t.postorder(),
        None => Vec::new(),
    }
}

/// The in-order keys behind a link are the keys behind it.
pub proof fn lemma_link_inorder_holds_the_keys<T>(link: Link<T>)
    ensures
        link_inorder_keys(link).to_set() == link_keys(link),
    decreases link,
{
    match link {
        Some(t) => {
            t.lemma_inorder_holds_the_keys();
        },
        None => {
            assert(Seq::<T>::empty().to_set() =~= Set::<T>::empty());
        },
    }
}

impl<T> BinaryTree<T> {
    /// The in-order traversal holds the keys of the tree and no others.
    pub proof fn lemma_inorder_holds_the_keys(self)
        ensures
            self.inorder_keys().to_set() == self.keys(),
        decreases self,
    {
        let l = link_inorder_keys(self.left);
        let r = link_inorder_keys(self.right);
        let mid = seq![self.key];
        lemma_link_inorder_holds_the_keys(self.left);
        lemma_link_inorder_holds_the_keys(self.right);
        vstd::seq_lib::seq_to_set_distributes_over_add(l, mid);
        vstd::seq_lib::seq_to_set_distributes_over_add(l + mid, r);
        assert(mid.to_set() =~= Set::<T>::empty().insert(self.key)) by {
            assert(mid[0] == self.key);
        }
        assert(self.inorder_keys().to_set() =~= self.keys());
    }
}

impl<T: TotalOrder> BinaryTree<T> {
    /// The in-order traversal of a search tree is strictly increasing.
    pub proof fn lemma_inorder_of_search_tree_is_sorted(self)
        requires
            self.is_search_tree(),
        ensures
            sorted_by(self.inorder_keys(), less_relation::<T>()),
        decreases self,
    {
        let l = link_inorder_keys(self.left);
        let r = link_inorder_keys(self.right);
        let all = self.inorder_keys();
        let n = l.len() as int;
        let lt = less_relation::<T>();
        lemma_link_inorder_holds_the_keys(self.left);
        lemma_link_inorder_holds_the_keys(self.right);
        if let Some(t) = self.left {
            t.lemma_inorder_of_search_tree_is_sorted();
        }
        if let Some(t) = self.right {
            t.lemma_inorder_of_search_tree_is_sorted();
        }
        assert forall|i: int, j: int| 0 <= i < j < all.len()
        implies #[trigger] lt(all[i], all[j]) by {
            if i < n {
                assert(l.contains(l[i]));
                assert(l.to_set().contains(l[i]));
                assert(self.left.unwrap().keys().contains(l[i]));
                assert(less(l[i], self.key));
            }
            if j > n {
                assert(r.contains(r[j - n - 1]));
                assert(r.to_set().contains(r[j - n - 1]));
                assert(self.right.unwrap().keys().contains(r[j - n - 1]));
                assert(less(self.key, r[j - n - 1]));
            }
            if j < n {
                assert(lt(l[i], l[j]));
            } else if i > n {
                assert(lt(r[i - n - 1], r[j - n - 1]));
            } else if i < n && j > n {
                T::leq_transitive(all[i], self.key, all[j]);
                if all[i] == all[j] {
                    T::leq_antisymmetric(all[i], self.key);
                }
            }
        }
    }
}

/// The subtrees of `t`, the left one before the right one.
pub open spec fn children<T>(t: BinaryTree<T>) -> Seq<BinaryTree<T>> {
    link_tree(t.left) + link_tree(t.right)
}

/// The tree behind a link as a forest of one tree; no tree where there is none.
pub open spec fn link_tree<T>(link: Link<T>) -> Seq<BinaryTree<T>> {
    match link {
        Some(t) => seq![*t],
        None => Seq::empty(),
    }
}

/// The subtrees of all trees of `forest`, in the order of their parents.
pub open spec fn children_of<T>(forest: Seq<BinaryTree<T>>) -> Seq<BinaryTree<T>>
    decreases forest.len(),
{
    if forest.len() == 0 {
        Seq::empty()
    } else {
        children(forest[0]).add(children_of(forest.drop_first()))
    }
}

/// The keys at the roots of the trees of `forest`.
pub open spec fn roots<T>(forest: Seq<BinaryTree<T>>) -> Seq<T> {
    Seq::new(forest.len(), |i: int| forest[i].key)
}

/// Number of nodes of all trees of `forest` together.
pub open spec fn forest_size<T>(forest: Seq<BinaryTree<T>>) -> nat
    decreases forest.len(),
{
    if forest.len() == 0 {
        0
    } else {
        forest[0].node_count() + forest_size(forest.drop_first())
    }
}

/// The keys of `forest` level by level: the roots from left to right, then
/// the level order of the forest of their children.
pub open spec fn level_order<T>(forest: Seq<BinaryTree<T>>) -> Seq<T>
    decreases forest_size(forest),
{
    if forest.len() == 0 {
        Seq::empty()
    } else {
        proof {
            lemma_children_of_size(forest);
        }
        roots(forest).add(level_order(children_of(forest)))
    }
}

/// The keys in the order in which a queue hands them out: the first tree
/// leaves the queue and gives its key, and its subtrees join the queue at
/// the back.
pub open spec fn queue_order<T>(queue: Seq<BinaryTree<T>>) -> Seq<T>
    decreases forest_size(queue),
{
    if queue.len() == 0 {
        Seq::empty()
    } else {
        proof {
            lemma_queue_step_size(queue);
        }
        seq![queue[0].key].add(queue_order(queue.drop_first().add(children(queue[0]))))
    }
}

/// The size of two forests one after the other is the sum of their sizes.
pub proof fn lemma_forest_size_add<T>(a: Seq<BinaryTree<T>>, b: Seq<BinaryTree<T>>)
    ensures
        forest_size(a.add(b)) == forest_size(a) + forest_size(b),
    decreases a.len(),
{
    if a.len() == 0 {
        assert(a.add(b) =~= b);
    } else {
        assert(a.add(b).drop_first() =~= a.drop_first().add(b));
        lemma_forest_size_add(a.drop_first(), b);
    }
}

/// A forest of one tree has the size of that tree.
pub proof fn lemma_forest_size_one<T>(t: BinaryTree<T>)
    ensures
        forest_size(seq![t]) == t.node_count(),
{
    assert(seq![t].drop_first() =~= Seq::<BinaryTree<T>>::empty());
    assert(forest_size(seq![t].drop_first()) == 0);
}

/// The subtrees of a tree hold all of its nodes but the root.
pub proof fn lemma_children_size<T>(t: BinaryTree<T>)
    ensures
        forest_size(children(t)) + 1 == t.node_count(),
{
    lemma_forest_size_add(link_tree(t.left), link_tree(t.right));
    if let Some(l) = t.left {
        lemma_forest_size_one(*l);
    }
    if let Some(r) = t.right {
        lemma_forest_size_one(*r);
    }
}

/// The children of a forest hold all of its nodes but the roots.
pub proof fn lemma_children_of_size<T>(forest: Seq<BinaryTree<T>>)
    ensures
        forest_size(children_of(forest)) + forest.len() == forest_size(forest),
    decreases forest.len(),
{
    if forest.len() > 0 {
        lemma_children_size(forest[0]);
        lemma_children_of_size(forest.drop_first());
        lemma_forest_size_add(children(forest[0]), children_of(forest.drop_first()));
    }
}

/// One step of the queue takes one node out of it.
pub proof fn lemma_queue_step_size<T>(queue: Seq<BinaryTree<T>>)
    requires
        queue.len() > 0,
    ensures
        forest_size(queue.drop_first().add(children(queue[0]))) + 1 == forest_size(queue),
{
    lemma_children_size(queue[0]);
    lemma_forest_size_add(queue.drop_first(), children(queue[0]));
}

/// A queue that starts with the forest `a` hands out the roots of `a` first
/// and by then holds the rest followed by the children of `a`.
pub proof fn lemma_queue_order_prefix<T>(a: Seq<BinaryTree<T>>, b: Seq<BinaryTree<T>>)
    ensures
        queue_order(a.add(b)) == roots(a).add(queue_order(b.add(children_of(a)))),
    decreases a.len(),
{
    if a.len() == 0 {
        assert(a.add(b) =~= b);
        assert(b.add(children_of(a)) =~= b);
    } else {
        let q = a.add(b);
        let rest = a.drop_first();
        let kids = children(a[0]);
        assert(q.drop_first().add(kids) =~= rest.add(b.add(kids)));
        lemma_queue_order_prefix(rest, b.add(kids));
        assert(b.add(kids).add(children_of(rest)) =~= b.add(children_of(a)));
        assert(seq![a[0].key].add(roots(rest)) =~= roots(a));
    }
}

/// A queue hands out the keys of a forest in level order.
pub proof fn lemma_queue_order_is_level_order<T>(forest: Seq<BinaryTree<T>>)
    ensures
        queue_order(forest) == level_order(forest),
    decreases forest_size(forest),
{
    if forest.len() > 0 {
        let empty = Seq::<BinaryTree<T>>::empty();
        lemma_queue_order_prefix(forest, empty);
        assert(forest.add(empty) =~= forest);
        assert(empty.add(children_of(forest)) =~= children_of(forest));
        lemma_children_of_size(forest);
        lemma_queue_order_is_level_order(children_of(forest));
    }
}

impl<T> BinaryTree<T> {
    /// The keys level by level, each level from left to right.
    pub open spec fn levelorder_keys(self) -> Seq<T> {
        level_order(seq![self])
    }
}

impl<T: Copy> BinaryTree<T> {
    /// The keys in level order.
    pub fn levelorder(&self) -> (keys: Vec<T>)
        ensures
            keys@ == self.levelorder_keys(),
    {
        let mut keys: Vec<T> = Vec::new();
        let mut q: VecDeque<&BinaryTree<T>> = VecDeque::new();
        q.push_back(self);
        let ghost mut waiting: Seq<BinaryTree<T>> = seq![*self];
        while q.len() > 0
            invariant
                q@.len() == waiting.len(),
                forall|i: int| 0 <= i < waiting.len() ==> *(#[trigger] q@[i]) == waiting[i],
                keys@.add(queue_order(waiting)) == queue_order(seq![*self]),
            decreases forest_size(waiting),
        {
            let ghost before = keys@;
            let front = q.pop_front().unwrap();
            keys.push(front.key);
            match &front.left {
                Some(left) => {
                    q.push_back(&**left);
                },
                None => {},
            }
            match &front.right {
                Some(right) => {
                    q.push_back(&**right);
                },
                None => {},
            }
            proof {
                lemma_queue_step_size(waiting);
                let next = waiting.drop_first().add(children(waiting[0]));
                assert(keys@.add(queue_order(next)) =~= before.add(queue_order(waiting)));
                waiting = next;
            }
        }
        proof {
            lemma_queue_order_is_level_order(seq![*self]);
        }
        keys
    }
}

} // verus!
