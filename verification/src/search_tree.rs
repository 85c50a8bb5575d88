//! The binary search tree.

use crate::bst_laws::{
    lemma_find, lemma_graft_found, lemma_inserted, lemma_path, lemma_removed, lemma_successor,
};
use crate::bst_model::{
    find, graft, holds, inserted, is_least_above, last_above, leftmost, ordered, path, removed,
    removed_at, removed_below, removes, removes_at, removes_below, successor, uproots,
};
use crate::element::{exact_clone, lt, total_order};
use crate::node::{
    clone_link, copied, drop, in_order, lemma_same_shape_count, lemma_traversal_lengths, link_to,
    node_count, pre_order, same_shape, targets, BinTreeNode, Node,
};
use std::cmp::Ordering;
use vstd::prelude::*;

verus! {

/// A binary search tree: a tree of nodes that the operations keep ordered.
pub struct BinSearchTree<T> {
    pub root: Node<T>,
}

impl<T: Clone> Clone for BinSearchTree<T> {
    /// A tree of the same shape that holds clones of the values.
    fn clone(&self) -> (copy: Self)
        ensures
            copied(self.root, copy.root),
            exact_clone::<T>() ==> copy == *self,
    {
        BinSearchTree { root: clone_link(&self.root) }
    }
}

impl<T> BinSearchTree<T> where T: Ord + Clone {
    /// The tree is ordered: its values strictly ascend in in-order.
    pub open spec fn is_bst(&self) -> bool {
        ordered(self.root)
    }

    /// `value` is in the tree.
    pub open spec fn contains(&self, value: T) -> bool {
        holds(self.root, value)
    }

    /// The number of nodes.
    pub open spec fn len(&self) -> nat {
        node_count(self.root)
    }

    /// A tree without nodes.
    pub fn new() -> (tree: Self)
        ensures
            tree.root.is_none(),
            tree.is_bst(),
    {
        BinSearchTree { root: None }
    }

    /// Puts `value` into the tree, at the empty link that the descent for it
    /// runs into. A value that is in the tree already leaves the tree as it
    /// is. Hands the tree back, so that calls can be chained.
    #[verifier::loop_isolation(false)]
    pub fn insert(&mut self, value: T) -> (tree: &mut Self)
        requires
            total_order::<T>(),
        ensures
            tree.root == inserted(old(self).root, value),
            *final(self) == *final(tree),
            old(self).is_bst() ==> tree.is_bst(),
            old(self).is_bst() ==> forall|other: T|
                tree.contains(other) <==> (old(self).contains(other) || other == value),
            old(self).is_bst() && old(self).contains(value) ==> *tree == *old(self),
            old(self).is_bst() && !old(self).contains(value) ==> tree.len() == old(self).len()
                + 1,
    {
        let ghost before = self.root;
        proof {
            if ordered(before) {
                lemma_inserted(before, value);
            }
        }
        let ghost mut around: spec_fn(Node<T>) -> Node<T> = |hole: Node<T>| hole;
        let mut subtree = &mut self.root;
        loop
            invariant
                after_borrow(self.root) == around(*final(subtree)),
                around(*subtree) == before,
                around(inserted(*subtree, value)) == inserted(before, value),
            decreases node_count(*subtree),
        {
            match subtree {
                None => {
                    *subtree = Some(Box::new(BinTreeNode { value, left: None, right: None }));
                    return self;
                },
                Some(node) => {
                    let ghost above = around;
                    let ghost here = **node;
                    match value.cmp(&node.value) {
                        Ordering::Equal => {
                            return self;
                        },
                        Ordering::Less => {
                            proof {
                                around = |hole: Node<T>|
                                    above(
                                        link_to(
                                            BinTreeNode {
                                                left: hole,
                                                right: here.right,
                                                value: here.value,
                                            },
                                        ),
                                    );
                            }
                            subtree = &mut node.left;
                        },
                        Ordering::Greater => {
                            proof {
                                around = |hole: Node<T>|
                                    above(
                                        link_to(
                                            BinTreeNode {
                                                left: here.left,
                                                right: hole,
                                                value: here.value,
                                            },
                                        ),
                                    );
                            }
                            subtree = &mut node.right;
                        },
                    }
                },
            }
        }
    }

    /// Looks for the node that holds `value` and hands it out for reading and
    /// writing. What the caller leaves in the node stands in the tree
    /// afterwards, in the place of the node.
    #[verifier::loop_isolation(false)]
    pub fn bin_search(&mut self, value: &T) -> (found: Option<&mut Box<BinTreeNode<T>>>)
        requires
            total_order::<T>(),
        ensures
            match found {
                Some(node) => find(old(self).root, *value) == Some(**node) && node.value
                    == *value && final(self).root == graft(
                    old(self).root,
                    *value,
                    **final(node),
                ),
                None => find(old(self).root, *value).is_none() && *final(self) == *old(self),
            },
            old(self).is_bst() ==> (found.is_some() <==> old(self).contains(*value)),
    {
        let ghost before = self.root;
        let ghost end = final(self).root;
        let ghost mut around: spec_fn(Node<T>) -> Node<T> = |hole: Node<T>| hole;
        proof {
            lemma_find(before, *value);
        }
        let mut res = &mut self.root;
        loop
            invariant
                end == around(*final(res)),
                around(*res) == before,
                find(*res, *value) == find(before, *value),
                forall|subtree: BinTreeNode<T>|
                    around(#[trigger] graft(*res, *value, subtree)) == graft(
                        before,
                        *value,
                        subtree,
                    ),
            decreases node_count(*res),
        {
            let ghost here = *res;
            match res {
                None => {
                    return None;
                },
                Some(node) => {
                    let ghost above = around;
                    let ghost at = **node;
                    match value.cmp(&node.value) {
                        Ordering::Equal => {
                            proof {
                                lemma_find(here, *value);
                                assert(graft(here, *value, **final(node)) == link_to(
                                    **final(node),
                                ));
                            }
                            return Some(node);
                        },
                        Ordering::Less => {
                            proof {
                                around = |hole: Node<T>|
                                    above(
                                        link_to(
                                            BinTreeNode {
                                                left: hole,
                                                right: at.right,
                                                value: at.value,
                                            },
                                        ),
                                    );
                                assert forall|subtree: BinTreeNode<T>|
                                    around(#[trigger] graft(at.left, *value, subtree)) == graft(
                                        before,
                                        *value,
                                        subtree,
                                    ) by {
                                    assert(above(graft(here, *value, subtree)) == graft(
                                        before,
                                        *value,
                                        subtree,
                                    ));
                                }
                            }
                            res = &mut node.left;
                        },
                        Ordering::Greater => {
                            proof {
                                around = |hole: Node<T>|
                                    above(
                                        link_to(
                                            BinTreeNode {
                                                left: at.left,
                                                right: hole,
                                                value: at.value,
                                            },
                                        ),
                                    );
                                assert forall|subtree: BinTreeNode<T>|
                                    around(#[trigger] graft(at.right, *value, subtree)) == graft(
                                        before,
                                        *value,
                                        subtree,
                                    ) by {
                                    assert(above(graft(here, *value, subtree)) == graft(
                                        before,
                                        *value,
                                        subtree,
                                    ));
                                }
                            }
                            res = &mut node.right;
                        },
                    }
                },
            }
        }
    }

    /// Looks for `value` and hands out the values that the descent passes,
    /// from the root to `value` itself.
    #[verifier::loop_isolation(false)]
    pub fn bin_search_vec(&self, value: &T) -> (found: Option<Vec<T>>)
        requires
            total_order::<T>(),
            exact_clone::<T>(),
        ensures
            match found {
                Some(passed) => path(self.root, *value) == Some(passed@),
                None => path(self.root, *value).is_none(),
            },
            found.is_some() <==> find(self.root, *value).is_some(),
            self.is_bst() ==> (found.is_some() <==> self.contains(*value)),
    {
        proof {
            lemma_find(self.root, *value);
            lemma_path(self.root, *value);
        }
        let mut current = &self.root;
        let mut res: Vec<T> = Vec::new();
        loop
            invariant
                path(self.root, *value) == match path(*current, *value) {
                    Some(below) => Some(res@ + below),
                    None => None,
                },
            decreases node_count(*current),
        {
            match current {
                None => {
                    return None;
                },
                Some(node) => {
                    let ghost passed = res@;
                    res.push(node.value.clone());
                    proof {
                        assert(res@ =~= passed + seq![node.value]);
                        if let Some(below) = path(*current, *value) {
                            let further = if value == node.value {
                                Seq::<T>::empty()
                            } else if lt(*value, node.value) {
                                path(node.left, *value).unwrap()
                            } else {
                                path(node.right, *value).unwrap()
                            };
                            assert(below =~= seq![node.value] + further);
                            assert(passed + below =~= res@ + further);
                        }
                    }
                    match value.cmp(&node.value) {
                        Ordering::Equal => {
                            return Some(res);
                        },
                        Ordering::Less => {
                            current = &node.left;
                        },
                        Ordering::Greater => {
                            current = &node.right;
                        },
                    }
                },
            }
        }
    }

    /// The successor of `value`: the least value of the tree that is greater.
    /// `None` when `value` is not in the tree, or is its greatest value.
    #[verifier::loop_isolation(false)]
    pub fn succ(&mut self, value: &T) -> (next: Option<T>)
        requires
            total_order::<T>(),
            exact_clone::<T>(),
        ensures
            *final(self) == *old(self),
            next == successor(old(self).root, *value),
            old(self).is_bst() && old(self).contains(*value) ==> is_least_above(
                in_order(old(self).root),
                *value,
                next,
            ),
            old(self).is_bst() && !old(self).contains(*value) ==> next.is_none(),
    {
        proof {
            lemma_graft_found(self.root, *value);
            lemma_path(self.root, *value);
            if ordered(self.root) {
                lemma_successor(self.root, *value);
            }
        }
        let first_val = match self.bin_search(value) {
            Some(node) => node,
            None => return None,
        };
        match first_val.right {
            Some(ref node) => Some(BinSearchTree::least(node)),
            None => {
                let path = self.bin_search_vec(value).unwrap();
                let mut i = path.len();
                assert(path@.take(i as int) =~= path@);
                while i > 0
                    invariant
                        i <= path.len(),
                        last_above(path@, *value) == last_above(path@.take(i as int), *value),
                    decreases i,
                {
                    i -= 1;
                    proof {
                        let ahead = path@.take(i + 1);
                        assert(ahead.last() == path[i as int]);
                        assert(ahead.drop_last() =~= path@.take(i as int));
                    }
                    if path[i] > *value {
                        return Some(path[i].clone());
                    }
                }
                None
            },
        }
    }

    /// Removes the node that holds `value` and tells whether there was one.
    pub fn remove(&mut self, value: T) -> (gone: bool)
        requires
            total_order::<T>(),
            exact_clone::<T>(),
        ensures
            final(self).root == removed(old(self).root, value),
            gone == removes(old(self).root, value),
            old(self).is_bst() ==> final(self).is_bst(),
            old(self).is_bst() ==> gone == old(self).contains(value),
            old(self).is_bst() ==> !final(self).contains(value),
            old(self).is_bst() && !old(self).contains(value) ==> *final(self) == *old(self),
            old(self).root.is_some() && old(self).root.unwrap().value == value
                ==> final(self).root.is_none(),
            old(self).is_bst() && old(self).contains(value) && !uproots(old(self).root, value)
                ==> final(self).len() + 1 == old(self).len(),
            old(self).is_bst() && old(self).root.is_some() && old(self).root.unwrap().value
                != value ==> forall|other: T|
                final(self).contains(other) <==> (old(self).contains(other) && other != value),
    {
        proof {
            if ordered(self.root) {
                lemma_removed(self.root, value);
            }
        }
        match self.root.as_mut() {
            Some(node) => match value.cmp(&node.value) {
                Ordering::Equal => {
                    drop(self.root.take());
                    true
                },
                _ => BinSearchTree::remove_rec(node, value),
            },
            None => false,
        }
    }

    /// References to the values of the tree, in pre-order.
    pub fn to_vec_pre(&self) -> (result: Vec<&T>)
        ensures
            targets(result@) == pre_order(self.root),
    {
        let mut result = Vec::new();
        match self.root {
            Some(ref node) => {
                BinSearchTree::preorder(node, &mut result);
                assert(targets(result@) =~= pre_order(self.root));
            },
            None => {
                assert(targets(result@) =~= pre_order(self.root));
            },
        }
        result
    }

    /// Appends references to the values below `node`, in pre-order.
    fn preorder<'a>(node: &'a BinTreeNode<T>, res: &mut Vec<&'a T>)
        ensures
            targets(final(res)@) == targets(old(res)@) + pre_order(link_to(*node)),
        decreases node,
    {
        res.push(&node.value);
        let ghost with_node = res@;
        match node.left {
            Some(ref left) => BinSearchTree::preorder(left, res),
            None => {},
        }
        let ghost with_left = res@;
        match node.right {
            Some(ref right) => BinSearchTree::preorder(right, res),
            None => {},
        }
        proof {
            assert(targets(with_node) =~= targets(old(res)@) + seq![node.value]);
            assert(targets(with_left) =~= targets(with_node) + pre_order(node.left));
            assert(targets(res@) =~= targets(with_left) + pre_order(node.right));
            assert(targets(res@) =~= targets(old(res)@) + pre_order(link_to(*node)));
        }
    }

    /// The values of the tree, in pre-order.
    pub fn to_vec_into(self) -> (result: Vec<T>)
        ensures
            result@ == pre_order(self.root),
    {
        let mut result: Vec<T> = Vec::new();
        match self.root {
            Some(node) => {
                BinSearchTree::preorder_into(node, &mut result);
                assert(result@ =~= pre_order(self.root));
            },
            None => {},
        }
        result
    }

    /// Appends the values below `node`, in pre-order.
    fn preorder_into(node: Box<BinTreeNode<T>>, res: &mut Vec<T>)
        ensures
            final(res)@ == old(res)@ + pre_order(Some(node)),
        decreases node,
    {
        let BinTreeNode { left, right, value } = *node;
        res.push(value);
        let ghost with_node = res@;
        match left {
            Some(left) => BinSearchTree::preorder_into(left, res),
            None => {},
        }
        let ghost with_left = res@;
        match right {
            Some(right) => BinSearchTree::preorder_into(right, res),
            None => {},
        }
        proof {
            assert(with_node =~= old(res)@ + seq![node.value]);
            assert(with_left =~= with_node + pre_order(node.left));
            assert(res@ =~= with_left + pre_order(node.right));
            assert(res@ =~= old(res)@ + pre_order(Some(node)));
        }
    }

    /// References for writing to the values of the tree, in pre-order. The
    /// tree keeps its shape and ends up with what the caller leaves behind
    /// the references.
    pub fn to_vec_mut(&mut self) -> (result: Vec<&mut T>)
        ensures
            result@.len() == node_count(old(self).root),
            forall|i: int|
                0 <= i < node_count(old(self).root) ==> *result@[i] == pre_order(
                    old(self).root,
                )[i],
            same_shape(old(self).root, final(self).root),
            forall|i: int|
                0 <= i < node_count(old(self).root) ==> pre_order(final(self).root)[i]
                    == *final(result@[i]),
    {
        let mut result = Vec::new();
        match self.root.as_mut() {
            Some(node) => {
                BinSearchTree::preorder_mut(node, &mut result);
            },
            None => {},
        }
        result
    }

    /// Appends references for writing to the values below `node`, in
    /// pre-order. What the caller writes through them stands in the tree.
    fn preorder_mut<'a>(node: &'a mut BinTreeNode<T>, res: &mut Vec<&'a mut T>)
        ensures
            final(res)@.len() == old(res)@.len() + node_count(link_to(*old(node))),
            forall|i: int| 0 <= i < old(res)@.len() ==> final(res)@[i] == old(res)@[i],
            forall|i: int|
                0 <= i < node_count(link_to(*old(node))) ==> *final(res)@[old(res)@.len() + i]
                    == pre_order(link_to(*old(node)))[i],
            same_shape(link_to(*old(node)), link_to(*final(node))),
            forall|i: int|
                0 <= i < node_count(link_to(*old(node))) ==> pre_order(link_to(*final(node)))[i]
                    == *final(final(res)@[old(res)@.len() + i]),
        decreases *old(node),
    {
        let ghost start = res@.len() as int;
        let ghost before = link_to(*node);
        let ghost after = link_to(*final(node));
        res.push(&mut node.value);
        let ghost with_node = res@;
        match node.left {
            Some(ref mut left) => BinSearchTree::preorder_mut(left, res),
            None => {},
        }
        let ghost with_left = res@;
        match node.right {
            Some(ref mut right) => BinSearchTree::preorder_mut(right, res),
            None => {},
        }
        proof {
            let old_left = before.unwrap().left;
            let old_right = before.unwrap().right;
            let new_left = after.unwrap().left;
            let new_right = after.unwrap().right;
            lemma_traversal_lengths(old_left);
            lemma_traversal_lengths(old_right);
            lemma_traversal_lengths(new_left);
            lemma_traversal_lengths(new_right);
            assert(same_shape(old_left, new_left));
            assert(same_shape(old_right, new_right));
            lemma_same_shape_count(old_left, new_left);
            lemma_same_shape_count(old_right, new_right);
            let in_left = node_count(old_left);
            assert(with_left.len() == start + 1 + in_left);
            assert forall|i: int| 0 <= i < node_count(before) implies *res@[start + i]
                == pre_order(before)[i] by {
                if i == 0 {
                    assert(res@[start] == with_left[start]);
                } else if i <= in_left {
                    assert(res@[start + i] == with_left[start + i]);
                    assert(*with_left[start + 1 + (i - 1)] == pre_order(old_left)[i - 1]);
                } else {
                    assert(*res@[start + 1 + in_left + (i - 1 - in_left)] == pre_order(
                        old_right,
                    )[i - 1 - in_left]);
                }
            }
            assert forall|i: int| 0 <= i < node_count(before) implies pre_order(after)[i]
                == *final(res@[start + i]) by {
                if i == 0 {
                    assert(res@[start] == with_left[start]);
                } else if i <= in_left {
                    assert(res@[start + i] == with_left[start + i]);
                    let at_left = with_left[start + 1 + (i - 1)];
                    assert(pre_order(new_left)[i - 1] == *final(at_left));
                } else {
                    let at_right = res@[start + 1 + in_left + (i - 1 - in_left)];
                    assert(pre_order(new_right)[i - 1 - in_left] == *final(at_right));
                }
            }
        }
    }

    /// Removes `value` from the subtree of `node` on the side of `value`.
    fn remove_rec(node: &mut Box<BinTreeNode<T>>, value: T) -> (gone: bool)
        requires
            total_order::<T>(),
            exact_clone::<T>(),
        ensures
            **final(node) == removed_below(**old(node), value),
            gone == removes_below(**old(node), value),
        decreases node_count(Some(*old(node))), 0nat,
    {
        let slot = match value.cmp(&node.value) {
            Ordering::Less => &mut node.left,
            _ => &mut node.right,
        };
        match slot {
            Some(child) => match value.cmp(&child.value) {
                Ordering::Equal => BinSearchTree::unlink(slot),
                _ => BinSearchTree::remove_rec(child, value),
            },
            None => false,
        }
    }

    /// Takes the node at `slot` out of the tree.
    fn unlink(slot: &mut Node<T>) -> (gone: bool)
        requires
            total_order::<T>(),
            exact_clone::<T>(),
            old(slot).is_some(),
        ensures
            *final(slot) == removed_at(*old(slot), old(slot).unwrap().value),
            gone == removes_at(*old(slot), old(slot).unwrap().value),
        decreases node_count(*old(slot)), 1nat,
    {
        let target = slot.as_mut().unwrap();
        if target.left.is_none() && target.right.is_none() {
            drop(slot.take());
            true
        } else if target.left.is_none() {
            let child = *target.right.take().unwrap();
            target.value = child.value;
            target.left = child.left;
            target.right = child.right;
            true
        } else if target.right.is_none() {
            let child = *target.left.take().unwrap();
            target.value = child.value;
            target.left = child.left;
            target.right = child.right;
            true
        } else {
            let least = BinSearchTree::least(target.right.as_ref().unwrap());
            target.value = least.clone();
            BinSearchTree::remove_rec(target, least)
        }
    }

    /// The value of the left-most node below `node`.
    fn least(node: &BinTreeNode<T>) -> (value: T)
        requires
            exact_clone::<T>(),
        ensures
            value == leftmost(*node),
    {
        let mut res = node;
        loop
            invariant
                exact_clone::<T>(),
                leftmost(*res) == leftmost(*node),
            decreases node_count(link_to(*res)),
        {
            match res.left {
                Some(ref next) => {
                    res = next;
                },
                None => {
                    return res.value.clone();
                },
            }
        }
    }
}

} // verus!
