//! The node of a binary tree, the traversal orders of a tree of nodes, and
//! the primitives that attach and detach children.

use crate::element::exact_clone;
use vstd::prelude::*;

verus! {

/// A link to a subtree: empty, or an owned node.
pub type Node<T> = Option<Box<BinTreeNode<T>>>;

/// A cell of a binary tree: a value and two links to the subtrees below it.
#[derive(Debug, PartialEq)]
pub struct BinTreeNode<T> {
    pub left: Node<T>,
    pub right: Node<T>,
    pub value: T,
}

/// The node that holds `value` and has no children.
pub open spec fn leaf<T>(value: T) -> BinTreeNode<T> {
    BinTreeNode { left: None, right: None, value }
}

/// The link to a node.
pub open spec fn link_to<T>(node: BinTreeNode<T>) -> Node<T> {
    Some(Box::new(node))
}

/// The values below a link in pre-order: node, left subtree, right subtree.
pub open spec fn pre_order<T>(link: Node<T>) -> Seq<T>
    decreases link,
{
    match link {
        None => Seq::empty(),
        Some(node) => seq![node.value] + pre_order(node.left) + pre_order(node.right),
    }
}

/// The values below a link in in-order: left subtree, node, right subtree.
pub open spec fn in_order<T>(link: Node<T>) -> Seq<T>
    decreases link,
{
    match link {
        None => Seq::empty(),
        Some(node) => in_order(node.left) + seq![node.value] + in_order(node.right),
    }
}

/// The values below a link in post-order: left subtree, right subtree, node.
pub open spec fn post_order<T>(link: Node<T>) -> Seq<T>
    decreases link,
{
    match link {
        None => Seq::empty(),
        Some(node) => post_order(node.left) + post_order(node.right) + seq![node.value],
    }
}

/// The values that a sequence of references points to.
pub open spec fn targets<T>(refs: Seq<&T>) -> Seq<T> {
    Seq::new(refs.len(), |i: int| *refs[i])
}

/// The number of nodes below a link.
pub open spec fn node_count<T>(link: Node<T>) -> nat
    decreases link,
{
    match link {
        None => 0,
        Some(node) => 1 + node_count(node.left) + node_count(node.right),
    }
}

/// The number of nodes on the longest way down from a link.
pub open spec fn depth_of<T>(link: Node<T>) -> nat
    decreases link,
{
    match link {
        None => 0,
        Some(node) => {
            let left = depth_of(node.left);
            let right = depth_of(node.right);
            if left >= right {
                left + 1
            } else {
                right + 1
            }
        },
    }
}

/// Two trees have the same shape: nodes in the same places, whatever they
/// hold.
pub open spec fn same_shape<T>(one: Node<T>, other: Node<T>) -> bool
    decreases one,
{
    match one {
        None => other.is_none(),
        Some(node) => other.is_some() && same_shape(node.left, other.unwrap().left) && same_shape(
            node.right,
            other.unwrap().right,
        ),
    }
}

/// `copy` has the shape of `source`, and each of its values is a clone of
/// the value at the same place in `source`.
pub open spec fn copied<T: Clone>(source: Node<T>, copy: Node<T>) -> bool
    decreases source,
{
    match source {
        None => copy.is_none(),
        Some(node) => copy.is_some() && cloned(node.value, copy.unwrap().value) && copied(
            node.left,
            copy.unwrap().left,
        ) && copied(node.right, copy.unwrap().right),
    }
}

/// `copy` is as long as `source`, and each of its elements is a clone of
/// the element at the same place in `source`.
pub open spec fn clones_of<T: Clone>(source: Seq<T>, copy: Seq<T>) -> bool {
    &&& copy.len() == source.len()
    &&& forall|i: int| 0 <= i < source.len() ==> cloned(source[i], copy[i])
}

/// Where cloning a value returns the value, a sequence of clones is the
/// sequence that was cloned.
pub proof fn lemma_clones_exact<T: Clone>(source: Seq<T>, copy: Seq<T>)
    requires
        exact_clone::<T>(),
        clones_of(source, copy),
    ensures
        copy == source,
{
    assert forall|i: int| 0 <= i < source.len() implies copy[i] == source[i] by {
        assert(cloned(source[i], copy[i]));
    }
    assert(copy =~= source);
}

/// Clones of two sequences, one after the other, are clones of the two
/// put together.
pub proof fn lemma_clones_join<T: Clone>(first: Seq<T>, second: Seq<T>, one: Seq<T>, two: Seq<T>)
    requires
        clones_of(first, one),
        clones_of(second, two),
    ensures
        clones_of(first + second, one + two),
{
    assert forall|i: int| 0 <= i < (first + second).len() implies cloned(
        (first + second)[i],
        (one + two)[i],
    ) by {
        if i < first.len() {
            assert(cloned(first[i], one[i]));
        } else {
            assert(cloned(second[i - first.len()], two[i - first.len()]));
        }
    }
}

/// Appending clones in two steps appends clones of the two sources put
/// together: where `middle` is `start` and then clones of `first`, and
/// `end` is `middle` and then clones of `second`, `end` is `start` and then
/// clones of `first + second`.
pub proof fn lemma_clones_appended<T: Clone>(
    start: Seq<T>,
    middle: Seq<T>,
    end: Seq<T>,
    first: Seq<T>,
    second: Seq<T>,
)
    requires
        start.len() <= middle.len() <= end.len(),
        middle.take(start.len() as int) == start,
        clones_of(first, middle.skip(start.len() as int)),
        end.take(middle.len() as int) == middle,
        clones_of(second, end.skip(middle.len() as int)),
    ensures
        end.take(start.len() as int) == start,
        clones_of(first + second, end.skip(start.len() as int)),
{
    let from_start = start.len() as int;
    let from_middle = middle.len() as int;
    assert(end.take(from_start) =~= end.take(from_middle).take(from_start));
    assert(end.skip(from_start) =~= middle.skip(from_start) + end.skip(from_middle)) by {
        assert forall|i: int| 0 <= i < end.len() - from_start implies end.skip(from_start)[i] == (
        middle.skip(from_start) + end.skip(from_middle))[i] by {
            if from_start + i < from_middle {
                assert(end.take(from_middle)[from_start + i] == end[from_start + i]);
            }
        }
    }
    lemma_clones_join(first, second, middle.skip(from_start), end.skip(from_middle));
}

/// Each traversal order visits every node once.
pub proof fn lemma_traversal_lengths<T>(link: Node<T>)
    ensures
        pre_order(link).len() == node_count(link),
        in_order(link).len() == node_count(link),
        post_order(link).len() == node_count(link),
    decreases link,
{
    if let Some(node) = link {
        lemma_traversal_lengths(node.left);
        lemma_traversal_lengths(node.right);
    }
}

/// The pre-order of a tree holds the value of the root and what the
/// pre-orders of the two subtrees hold.
pub proof fn lemma_pre_order_node<T>(node: BinTreeNode<T>)
    ensures
        pre_order(link_to(node)).contains(node.value),
        forall|value: T|
            pre_order(node.left).contains(value) ==> pre_order(link_to(node)).contains(value),
        forall|value: T|
            pre_order(node.right).contains(value) ==> pre_order(link_to(node)).contains(value),
{
    let whole = pre_order(link_to(node));
    let left = pre_order(node.left);
    let right = pre_order(node.right);
    assert(whole == seq![node.value] + left + right);
    assert(whole[0] == node.value);
    assert forall|value: T| left.contains(value) implies whole.contains(value) by {
        let i = choose|i: int| 0 <= i < left.len() && left[i] == value;
        assert(whole[1 + i] == value);
    }
    assert forall|value: T| right.contains(value) implies whole.contains(value) by {
        let i = choose|i: int| 0 <= i < right.len() && right[i] == value;
        assert(whole[1 + left.len() + i] == value);
    }
}

/// Trees of the same shape have the same number of nodes.
pub proof fn lemma_same_shape_count<T>(one: Node<T>, other: Node<T>)
    requires
        same_shape(one, other),
    ensures
        node_count(one) == node_count(other),
    decreases one,
{
    if let Some(node) = one {
        lemma_same_shape_count(node.left, other.unwrap().left);
        lemma_same_shape_count(node.right, other.unwrap().right);
    }
}

/// Where cloning a value returns the value, a copy of a tree is the tree.
pub proof fn lemma_copied_exact<T: Clone>(source: Node<T>, copy: Node<T>)
    requires
        exact_clone::<T>(),
        copied(source, copy),
    ensures
        copy == source,
    decreases source,
{
    if let Some(node) = source {
        lemma_copied_exact(node.left, copy.unwrap().left);
        lemma_copied_exact(node.right, copy.unwrap().right);
    }
}

impl<T: Clone> BinTreeNode<T> {
    /// A node that holds `value` and has no children.
    pub fn new(value: T) -> (node: Self)
        ensures
            node == leaf(value),
    {
        BinTreeNode { value, left: None, right: None }
    }

    /// A deep copy: a tree of the same shape whose values are clones of the
    /// values of this one.
    pub fn my_clone(&self) -> (copy: Self)
        ensures
            copied(link_to(*self), link_to(copy)),
            exact_clone::<T>() ==> copy == *self,
        decreases self,
    {
        let copy = BinTreeNode {
            value: self.value.clone(),
            left: match self.left {
                Some(ref node) => Some(Box::new(node.my_clone())),
                None => None,
            },
            right: match self.right {
                Some(ref node) => Some(Box::new(node.my_clone())),
                None => None,
            },
        };
        proof {
            assert(cloned(self.value, copy.value));
            assert(copied(self.left, copy.left));
            assert(copied(self.right, copy.right));
            if exact_clone::<T>() {
                lemma_copied_exact(link_to(*self), link_to(copy));
            }
        }
        copy
    }

    /// Puts a new leaf that holds `value` in place of the left subtree.
    pub fn insert_left(&mut self, value: T)
        ensures
            final(self).left == link_to(leaf(value)),
            final(self).right == old(self).right,
            final(self).value == old(self).value,
    {
        self.left = Some(Box::new(BinTreeNode { value, left: None, right: None }));
    }

    /// Puts a new leaf that holds `value` in place of the right subtree.
    pub fn insert_right(&mut self, value: T)
        ensures
            final(self).right == link_to(leaf(value)),
            final(self).left == old(self).left,
            final(self).value == old(self).value,
    {
        self.right = Some(Box::new(BinTreeNode { value, left: None, right: None }));
    }

    /// Removes the left subtree.
    pub fn drop_left(&mut self)
        ensures
            final(self).left.is_none(),
            final(self).right == old(self).right,
            final(self).value == old(self).value,
    {
        drop(self.left.take());
    }

    /// Removes the right subtree.
    pub fn drop_right(&mut self)
        ensures
            final(self).right.is_none(),
            final(self).left == old(self).left,
            final(self).value == old(self).value,
    {
        drop(self.right.take());
    }
}

impl<T: Clone> Clone for BinTreeNode<T> {
    /// A deep copy, as `my_clone` makes it.
    fn clone(&self) -> (copy: Self)
        ensures
            copied(link_to(*self), link_to(copy)),
            exact_clone::<T>() ==> copy == *self,
    {
        self.my_clone()
    }
}

/// A deep copy of what is below `link`.
pub(crate) fn clone_link<T: Clone>(link: &Node<T>) -> (copy: Node<T>)
    ensures
        copied(*link, copy),
        exact_clone::<T>() ==> copy == *link,
{
    match link {
        Some(node) => Some(Box::new(node.my_clone())),
        None => None,
    }
}

/// Takes a value and lets it go.
pub fn drop<T>(_t: T) {
}

} // verus!
