//! The search tree as mathematics: what it means for a tree of nodes to be
//! ordered, and the tree that each operation leaves behind, as functions of
//! the tree before it.
//!
//! The functions here follow the comparisons that the operations make, so
//! they are defined on every tree; `bst_laws` shows what they amount to on
//! an ordered one.

use crate::element::{ascending, lt};
use crate::node::{in_order, leaf, link_to, BinTreeNode, Node};
use vstd::prelude::*;

verus! {

/// The search-tree order: read in in-order, the values strictly ascend.
/// This says that every node is greater than all of its left subtree and
/// less than all of its right subtree, and that no value occurs twice.
pub open spec fn ordered<T: Ord>(link: Node<T>) -> bool {
    ascending(in_order(link))
}

/// `value` is the value of some node below `link`.
pub open spec fn holds<T>(link: Node<T>, value: T) -> bool {
    in_order(link).contains(value)
}

/// The node at which a descent for `value` arrives: at each node the descent
/// stops on an equal value, turns left for a smaller one and right for a
/// greater one. `None` when it runs into an empty link.
pub open spec fn find<T: Ord>(link: Node<T>, value: T) -> Option<BinTreeNode<T>>
    decreases link,
{
    match link {
        None => None,
        Some(node) => if value == node.value {
            Some(*node)
        } else if lt(value, node.value) {
            find(node.left, value)
        } else {
            find(node.right, value)
        },
    }
}

/// The tree in which `subtree` stands where the descent for `value` arrives.
/// The tree itself when the descent arrives nowhere.
pub open spec fn graft<T: Ord>(link: Node<T>, value: T, subtree: BinTreeNode<T>) -> Node<T>
    decreases link,
{
    match link {
        None => None,
        Some(node) => if value == node.value {
            link_to(subtree)
        } else if lt(value, node.value) {
            link_to(
                BinTreeNode {
                    left: graft(node.left, value, subtree),
                    right: node.right,
                    value: node.value,
                },
            )
        } else {
            link_to(
                BinTreeNode {
                    left: node.left,
                    right: graft(node.right, value, subtree),
                    value: node.value,
                },
            )
        },
    }
}

/// The values that the descent for `value` passes, from the root to `value`
/// itself. `None` when the descent arrives nowhere.
pub open spec fn path<T: Ord>(link: Node<T>, value: T) -> Option<Seq<T>>
    decreases link,
{
    match link {
        None => None,
        Some(node) => if value == node.value {
            Some(seq![node.value])
        } else {
            let rest = if lt(value, node.value) {
                path(node.left, value)
            } else {
                path(node.right, value)
            };
            match rest {
                None => None,
                Some(below) => Some(seq![node.value] + below),
            }
        },
    }
}

/// The tree after the insertion of `value`: a new leaf hangs at the empty
/// link that the descent runs into, and a tree in which the descent arrives
/// at a node stays as it is.
pub open spec fn inserted<T: Ord>(link: Node<T>, value: T) -> Node<T>
    decreases link,
{
    match link {
        None => link_to(leaf(value)),
        Some(node) => if value == node.value {
            link
        } else if lt(value, node.value) {
            link_to(
                BinTreeNode {
                    left: inserted(node.left, value),
                    right: node.right,
                    value: node.value,
                },
            )
        } else {
            link_to(
                BinTreeNode {
                    left: node.left,
                    right: inserted(node.right, value),
                    value: node.value,
                },
            )
        },
    }
}

/// The value of the left-most node below `node`.
pub open spec fn leftmost<T>(node: BinTreeNode<T>) -> T
    decreases node,
{
    match node.left {
        None => node.value,
        Some(left) => leftmost(*left),
    }
}

/// What is left below `link` after the removal of `value` there. The node
/// at which the descent arrives goes: a leaf leaves an empty link, a node
/// with one child gives way to that child, and a node with two children
/// takes the left-most value of its right subtree, which is then removed
/// from that subtree.
pub open spec fn removed_at<T: Ord>(link: Node<T>, value: T) -> Node<T>
    decreases link,
{
    match link {
        None => None,
        Some(node) => if value == node.value {
            match (node.left, node.right) {
                (None, None) => None,
                (None, Some(right)) => Some(right),
                (Some(left), None) => Some(left),
                (Some(_), Some(right)) => link_to(
                    BinTreeNode {
                        left: node.left,
                        right: removed_at(node.right, leftmost(*right)),
                        value: leftmost(*right),
                    },
                ),
            }
        } else if lt(value, node.value) {
            link_to(
                BinTreeNode {
                    left: removed_at(node.left, value),
                    right: node.right,
                    value: node.value,
                },
            )
        } else {
            link_to(
                BinTreeNode {
                    left: node.left,
                    right: removed_at(node.right, value),
                    value: node.value,
                },
            )
        },
    }
}

/// Whether the removal of `value` below `link` takes a node away.
pub open spec fn removes_at<T: Ord>(link: Node<T>, value: T) -> bool
    decreases link,
{
    match link {
        None => false,
        Some(node) => if value == node.value {
            match (node.left, node.right) {
                (Some(_), Some(right)) => removes_at(node.right, leftmost(*right)),
                _ => true,
            }
        } else if lt(value, node.value) {
            removes_at(node.left, value)
        } else {
            removes_at(node.right, value)
        },
    }
}

/// `node` after the removal of `value` from the subtree on the side of
/// `value`: the left one for a smaller value, the right one otherwise.
pub open spec fn removed_below<T: Ord>(node: BinTreeNode<T>, value: T) -> BinTreeNode<T> {
    if lt(value, node.value) {
        BinTreeNode { left: removed_at(node.left, value), right: node.right, value: node.value }
    } else {
        BinTreeNode { left: node.left, right: removed_at(node.right, value), value: node.value }
    }
}

/// Whether the removal of `value` from the subtree of `node` on the side of
/// `value` takes a node away.
pub open spec fn removes_below<T: Ord>(node: BinTreeNode<T>, value: T) -> bool {
    if lt(value, node.value) {
        removes_at(node.left, value)
    } else {
        removes_at(node.right, value)
    }
}

/// The whole tree after the removal of `value`. A root that holds `value`
/// goes with everything below it; any other node goes as `removed_at` says.
pub open spec fn removed<T: Ord>(root: Node<T>, value: T) -> Node<T> {
    match root {
        None => None,
        Some(node) => if value == node.value {
            None
        } else {
            link_to(removed_below(*node, value))
        },
    }
}

/// The removal of `value` takes more than one node: `value` is at the root,
/// and the root has children, which go with it.
pub open spec fn uproots<T>(root: Node<T>, value: T) -> bool {
    match root {
        None => false,
        Some(node) => node.value == value && (node.left.is_some() || node.right.is_some()),
    }
}

/// Whether the removal of `value` from the whole tree takes a node away.
pub open spec fn removes<T: Ord>(root: Node<T>, value: T) -> bool {
    match root {
        None => false,
        Some(node) => value == node.value || removes_below(*node, value),
    }
}

/// The last element of `values` that is greater than `value`.
pub open spec fn last_above<T: Ord>(values: Seq<T>, value: T) -> Option<T>
    decreases values.len(),
{
    if values.len() == 0 {
        None
    } else if lt(value, values.last()) {
        Some(values.last())
    } else {
        last_above(values.drop_last(), value)
    }
}

/// The successor of `value` as the tree gives it: nothing where the descent
/// for `value` arrives nowhere; the left-most value of the right subtree
/// where the node of `value` has one; else the nearest node above it on the
/// way from the root that is greater.
pub open spec fn successor<T: Ord>(root: Node<T>, value: T) -> Option<T> {
    match find(root, value) {
        None => None,
        Some(node) => match node.right {
            Some(right) => Some(leftmost(*right)),
            None => last_above(path(root, value).unwrap(), value),
        },
    }
}

/// `next` is the least of `values` that is greater than `value`; or it is
/// `None`, and none of `values` is greater.
pub open spec fn is_least_above<T: Ord>(values: Seq<T>, value: T, next: Option<T>) -> bool {
    match next {
        Some(least) => values.contains(least) && lt(value, least) && forall|other: T|
            values.contains(other) && lt(value, other) ==> !lt(other, least),
        None => forall|other: T| values.contains(other) ==> !lt(value, other),
    }
}

/// One change to a tree: the insertion or the removal of a value.
pub enum Edit<T> {
    Insert(T),
    Remove(T),
}

/// The tree after a sequence of changes, made one after the other.
pub open spec fn edited<T: Ord>(root: Node<T>, edits: Seq<Edit<T>>) -> Node<T>
    decreases edits.len(),
{
    if edits.len() == 0 {
        root
    } else {
        let before = edited(root, edits.drop_last());
        match edits.last() {
            Edit::Insert(value) => inserted(before, value),
            Edit::Remove(value) => removed(before, value),
        }
    }
}

} // verus!
