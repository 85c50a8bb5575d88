//! What the operations of the search tree amount to on an ordered tree.

use crate::bst_model::{
    edited, find, graft, holds, inserted, is_least_above, last_above, leftmost, ordered, path,
    removed, removed_at, removes, removes_at, successor, uproots, Edit,
};
use crate::element::{
    all_above, all_below, lemma_ascending_join, lemma_lt_transitive, lemma_trichotomy, lt,
    total_order,
};
use crate::node::{in_order, link_to, node_count, BinTreeNode, Node};
use vstd::prelude::*;

verus! {

/// A value is below a node exactly when it is in the left subtree, is the
/// node's own value, or is in the right subtree.
pub proof fn lemma_holds_node<T>(node: BinTreeNode<T>, value: T)
    ensures
        holds(link_to(node), value) <==> (holds(node.left, value) || value == node.value || holds(
            node.right,
            value,
        )),
{
    let left = in_order(node.left);
    let right = in_order(node.right);
    let whole = in_order(link_to(node));
    assert(whole == left + seq![node.value] + right);
    let n = left.len() as int;
    if holds(node.left, value) {
        let i = choose|i: int| 0 <= i < left.len() && left[i] == value;
        assert(whole[i] == value);
    }
    if value == node.value {
        assert(whole[n] == value);
    }
    if holds(node.right, value) {
        let i = choose|i: int| 0 <= i < right.len() && right[i] == value;
        assert(whole[n + 1 + i] == value);
    }
    if holds(link_to(node), value) {
        let i = choose|i: int| 0 <= i < whole.len() && whole[i] == value;
        if i < n {
            assert(left[i] == value);
        } else if i > n {
            assert(right[i - n - 1] == value);
        }
    }
}

/// A tree is ordered exactly when both subtrees of its root are ordered,
/// all of the left one is below the root and all of the right one above it.
pub proof fn lemma_ordered_node<T: Ord>(node: BinTreeNode<T>)
    requires
        total_order::<T>(),
    ensures
        ordered(link_to(node)) <==> (ordered(node.left) && ordered(node.right) && all_below(
            in_order(node.left),
            node.value,
        ) && all_above(in_order(node.right), node.value)),
{
    lemma_ascending_join(in_order(node.left), node.value, in_order(node.right));
}

/// In an ordered tree, what is in the left subtree of the root is less than
/// the root, and what is in the right subtree is greater.
pub proof fn lemma_ordered_sides<T: Ord>(node: BinTreeNode<T>, value: T)
    requires
        total_order::<T>(),
        ordered(link_to(node)),
    ensures
        ordered(node.left),
        ordered(node.right),
        holds(node.left, value) ==> lt(value, node.value),
        holds(node.right, value) ==> lt(node.value, value),
{
    lemma_ordered_node(node);
}

/// In an ordered tree the descent for a value arrives at a node exactly when
/// the value is in the tree, and the node it arrives at holds the value.
pub proof fn lemma_find<T: Ord>(link: Node<T>, value: T)
    requires
        total_order::<T>(),
    ensures
        find(link, value) matches Some(node) ==> node.value == value && holds(link, value),
        ordered(link) ==> (find(link, value).is_some() <==> holds(link, value)),
    decreases link,
{
    if let Some(node) = link {
        assert(link == link_to(*node));
        lemma_holds_node(*node, value);
        lemma_trichotomy(value, node.value);
        lemma_find(node.left, value);
        lemma_find(node.right, value);
        if ordered(link) {
            lemma_ordered_sides(*node, value);
        }
    }
}

/// The descent for a value passes values exactly when it arrives at a node.
/// What it passes starts at the root, ends with the value, and is in the
/// tree.
pub proof fn lemma_path<T: Ord>(link: Node<T>, value: T)
    ensures
        path(link, value).is_some() <==> find(link, value).is_some(),
        path(link, value) matches Some(passed) ==> passed.len() >= 1 && passed[0]
            == link.unwrap().value && passed.last() == value && forall|i: int|
            0 <= i < passed.len() ==> holds(link, #[trigger] passed[i]),
    decreases link,
{
    if let Some(node) = link {
        assert(link == link_to(*node));
        lemma_path(node.left, value);
        lemma_path(node.right, value);
        if let Some(passed) = path(link, value) {
            assert forall|i: int| 0 <= i < passed.len() implies holds(
                link,
                #[trigger] passed[i],
            ) by {
                lemma_holds_node(*node, passed[i]);
                if value != node.value && i > 0 {
                    let below = if lt(value, node.value) {
                        path(node.left, value).unwrap()
                    } else {
                        path(node.right, value).unwrap()
                    };
                    assert(passed[i] == below[i - 1]);
                }
            }
        }
    }
}

/// Insertion into an ordered tree leaves an ordered tree that holds the
/// value besides what the tree held. A value that was there leaves the tree
/// as it was; a new one adds one node.
pub proof fn lemma_inserted<T: Ord>(link: Node<T>, value: T)
    requires
        total_order::<T>(),
        ordered(link),
    ensures
        ordered(inserted(link, value)),
        forall|other: T|
            holds(inserted(link, value), other) <==> (holds(link, other) || other == value),
        holds(link, value) ==> inserted(link, value) == link,
        !holds(link, value) ==> node_count(inserted(link, value)) == node_count(link) + 1,
    decreases link,
{
    let after = inserted(link, value);
    match link {
        None => {
            assert(in_order(after) =~= seq![value]);
            assert(in_order(link) =~= Seq::<T>::empty());
            assert forall|other: T| holds(after, other) <==> (holds(link, other) || other
                == value) by {
                if other == value {
                    assert(in_order(after)[0] == other);
                }
            }
        },
        Some(node) => {
            assert(link == link_to(*node));
            lemma_ordered_node(*node);
            lemma_trichotomy(value, node.value);
            lemma_holds_node(*node, value);
            if value == node.value {
            } else if lt(value, node.value) {
                lemma_inserted(node.left, value);
                let grown = BinTreeNode {
                    left: inserted(node.left, value),
                    right: node.right,
                    value: node.value,
                };
                assert(after == link_to(grown));
                lemma_ordered_sides(*node, value);
                assert forall|i: int| 0 <= i < in_order(grown.left).len() implies lt(
                    in_order(grown.left)[i],
                    node.value,
                ) by {
                    let other = in_order(grown.left)[i];
                    assert(holds(grown.left, other));
                    lemma_ordered_sides(*node, other);
                }
                lemma_ordered_node(grown);
                assert forall|other: T| holds(after, other) <==> (holds(link, other) || other
                    == value) by {
                    lemma_holds_node(grown, other);
                    lemma_holds_node(*node, other);
                }
            } else {
                lemma_inserted(node.right, value);
                let grown = BinTreeNode {
                    left: node.left,
                    right: inserted(node.right, value),
                    value: node.value,
                };
                assert(after == link_to(grown));
                lemma_ordered_sides(*node, value);
                assert forall|i: int| 0 <= i < in_order(grown.right).len() implies lt(
                    node.value,
                    in_order(grown.right)[i],
                ) by {
                    let other = in_order(grown.right)[i];
                    assert(holds(grown.right, other));
                    lemma_ordered_sides(*node, other);
                }
                lemma_ordered_node(grown);
                assert forall|other: T| holds(after, other) <==> (holds(link, other) || other
                    == value) by {
                    lemma_holds_node(grown, other);
                    lemma_holds_node(*node, other);
                }
            }
        },
    }
}

/// In an ordered tree the left-most value is in the tree and is less than
/// every other value of it.
pub proof fn lemma_leftmost<T: Ord>(node: BinTreeNode<T>)
    requires
        total_order::<T>(),
        ordered(link_to(node)),
    ensures
        holds(link_to(node), leftmost(node)),
        forall|other: T|
            holds(link_to(node), other) ==> other == leftmost(node) || lt(leftmost(node), other),
    decreases node,
{
    lemma_ordered_node(node);
    lemma_holds_node(node, leftmost(node));
    match node.left {
        None => {
            assert(in_order(node.left) =~= Seq::<T>::empty());
            assert forall|other: T| holds(link_to(node), other) implies other == leftmost(node)
                || lt(leftmost(node), other) by {
                lemma_holds_node(node, other);
                lemma_ordered_sides(node, other);
            }
        },
        Some(left) => {
            assert(node.left == link_to(*left));
            lemma_leftmost(*left);
            let least = leftmost(*left);
            lemma_ordered_sides(node, least);
            assert forall|other: T| holds(link_to(node), other) implies other == leftmost(node)
                || lt(leftmost(node), other) by {
                lemma_holds_node(node, other);
                lemma_ordered_sides(node, other);
                if other == node.value {
                } else if holds(node.right, other) {
                    lemma_lt_transitive(least, node.value, other);
                }
            }
        },
    }
}

/// Removal below a link of an ordered tree leaves an ordered tree that
/// holds what the tree held but the value. It takes a node away exactly when
/// the value was there, then exactly one, and else leaves the tree as it
/// was.
pub proof fn lemma_removed_at<T: Ord>(link: Node<T>, value: T)
    requires
        total_order::<T>(),
        ordered(link),
    ensures
        ordered(removed_at(link, value)),
        removes_at(link, value) == holds(link, value),
        forall|other: T|
            holds(removed_at(link, value), other) <==> (holds(link, other) && other != value),
        holds(link, value) ==> node_count(removed_at(link, value)) + 1 == node_count(link),
        !holds(link, value) ==> removed_at(link, value) == link,
    decreases link,
{
    let after = removed_at(link, value);
    match link {
        None => {
            assert(in_order(link) =~= Seq::<T>::empty());
        },
        Some(node) => {
            assert(link == link_to(*node));
            lemma_ordered_node(*node);
            lemma_trichotomy(value, node.value);
            lemma_holds_node(*node, value);
            lemma_ordered_sides(*node, value);
            if value == node.value {
                match (node.left, node.right) {
                    (None, None) => {
                        assert(in_order(after) =~= Seq::<T>::empty());
                        assert(in_order(node.left) =~= Seq::<T>::empty());
                        assert(in_order(node.right) =~= Seq::<T>::empty());
                        assert forall|other: T| holds(after, other) <==> (holds(link, other)
                            && other != value) by {
                            lemma_holds_node(*node, other);
                        }
                    },
                    (None, Some(right)) => {
                        assert(in_order(node.left) =~= Seq::<T>::empty());
                        assert forall|other: T| holds(after, other) <==> (holds(link, other)
                            && other != value) by {
                            lemma_holds_node(*node, other);
                            lemma_ordered_sides(*node, other);
                            lemma_trichotomy(other, value);
                        }
                    },
                    (Some(left), None) => {
                        assert(in_order(node.right) =~= Seq::<T>::empty());
                        assert forall|other: T| holds(after, other) <==> (holds(link, other)
                            && other != value) by {
                            lemma_holds_node(*node, other);
                            lemma_ordered_sides(*node, other);
                            lemma_trichotomy(other, value);
                        }
                    },
                    (Some(left), Some(right)) => {
                        assert(node.right == link_to(*right));
                        let least = leftmost(*right);
                        lemma_leftmost(*right);
                        lemma_removed_at(node.right, least);
                        lemma_ordered_sides(*node, least);
                        let shrunk = BinTreeNode {
                            left: node.left,
                            right: removed_at(node.right, least),
                            value: least,
                        };
                        assert(after == link_to(shrunk));
                        assert forall|i: int| 0 <= i < in_order(shrunk.left).len() implies lt(
                            in_order(shrunk.left)[i],
                            least,
                        ) by {
                            let other = in_order(shrunk.left)[i];
                            assert(holds(node.left, other));
                            lemma_ordered_sides(*node, other);
                            lemma_lt_transitive(other, node.value, least);
                        }
                        assert forall|i: int| 0 <= i < in_order(shrunk.right).len() implies lt(
                            least,
                            in_order(shrunk.right)[i],
                        ) by {
                            let other = in_order(shrunk.right)[i];
                            assert(holds(shrunk.right, other));
                        }
                        lemma_ordered_node(shrunk);
                        assert forall|other: T| holds(after, other) <==> (holds(link, other)
                            && other != value) by {
                            lemma_holds_node(shrunk, other);
                            lemma_holds_node(*node, other);
                            lemma_ordered_sides(*node, other);
                            lemma_trichotomy(other, value);
                        }
                    },
                }
            } else if lt(value, node.value) {
                lemma_removed_at(node.left, value);
                let shrunk = BinTreeNode {
                    left: removed_at(node.left, value),
                    right: node.right,
                    value: node.value,
                };
                assert(after == link_to(shrunk));
                assert forall|i: int| 0 <= i < in_order(shrunk.left).len() implies lt(
                    in_order(shrunk.left)[i],
                    node.value,
                ) by {
                    let other = in_order(shrunk.left)[i];
                    assert(holds(shrunk.left, other));
                    lemma_ordered_sides(*node, other);
                }
                lemma_ordered_node(shrunk);
                assert forall|other: T| holds(after, other) <==> (holds(link, other) && other
                    != value) by {
                    lemma_holds_node(shrunk, other);
                    lemma_holds_node(*node, other);
                    lemma_ordered_sides(*node, other);
                    lemma_trichotomy(other, value);
                    lemma_trichotomy(node.value, value);
                }
            } else {
                lemma_removed_at(node.right, value);
                let shrunk = BinTreeNode {
                    left: node.left,
                    right: removed_at(node.right, value),
                    value: node.value,
                };
                assert(after == link_to(shrunk));
                assert forall|i: int| 0 <= i < in_order(shrunk.right).len() implies lt(
                    node.value,
                    in_order(shrunk.right)[i],
                ) by {
                    let other = in_order(shrunk.right)[i];
                    assert(holds(shrunk.right, other));
                    lemma_ordered_sides(*node, other);
                }
                lemma_ordered_node(shrunk);
                assert forall|other: T| holds(after, other) <==> (holds(link, other) && other
                    != value) by {
                    lemma_holds_node(shrunk, other);
                    lemma_holds_node(*node, other);
                    lemma_ordered_sides(*node, other);
                    lemma_trichotomy(other, value);
                    lemma_trichotomy(node.value, value);
                }
            }
        },
    }
}

/// Removal from an ordered tree leaves an ordered tree without the value.
/// It takes something away exactly when the value was there. A value at the
/// root takes the whole tree with it; a value elsewhere takes one node, and
/// the tree holds the rest as before; a value that was not there leaves the
/// tree as it was. So the number of nodes goes down by exactly one whenever
/// the value was there, unless it was at a root with children.
pub proof fn lemma_removed<T: Ord>(root: Node<T>, value: T)
    requires
        total_order::<T>(),
        ordered(root),
    ensures
        ordered(removed(root, value)),
        removes(root, value) == holds(root, value),
        !holds(removed(root, value), value),
        root.is_some() && root.unwrap().value == value ==> removed(root, value).is_none(),
        root.is_some() && root.unwrap().value != value ==> removed(root, value) == removed_at(
            root,
            value,
        ),
        root.is_some() && root.unwrap().value != value ==> forall|other: T|
            holds(removed(root, value), other) <==> (holds(root, other) && other != value),
        holds(root, value) && !uproots(root, value) ==> node_count(removed(root, value)) + 1
            == node_count(root),
        !holds(root, value) ==> removed(root, value) == root,
{
    lemma_removed_at(root, value);
    match root {
        None => {
            assert(in_order(root) =~= Seq::<T>::empty());
        },
        Some(node) => {
            assert(root == link_to(*node));
            lemma_holds_node(*node, value);
            lemma_trichotomy(value, node.value);
            if value == node.value {
                assert(in_order(removed(root, value)) =~= Seq::<T>::empty());
            }
        },
    }
}

/// Looking for the last greater element in a sequence with one more element
/// at its front finds what it finds without that element, and else that
/// element if it is greater.
pub proof fn lemma_last_above_front<T: Ord>(first: T, rest: Seq<T>, value: T)
    ensures
        last_above(seq![first] + rest, value) == match last_above(rest, value) {
            Some(found) => Some(found),
            None => if lt(value, first) {
                Some(first)
            } else {
                None
            },
        },
    decreases rest.len(),
{
    let whole = seq![first] + rest;
    if rest.len() == 0 {
        assert(whole.last() == first);
        assert(whole.drop_last() =~= Seq::<T>::empty());
        assert(last_above(whole.drop_last(), value).is_none());
        assert(last_above(rest, value).is_none());
    } else {
        assert(whole.last() == rest.last());
        assert(whole.drop_last() =~= seq![first] + rest.drop_last());
        lemma_last_above_front(first, rest.drop_last(), value);
        if !lt(value, rest.last()) {
            assert(last_above(whole, value) == last_above(whole.drop_last(), value));
            assert(last_above(rest, value) == last_above(rest.drop_last(), value));
        }
    }
}

/// In an ordered tree that holds a value, the successor that the tree gives
/// is the least value of the tree that is greater, and there is none when
/// the value is the greatest. For a value that is not in the tree there is
/// none either.
pub proof fn lemma_successor<T: Ord>(link: Node<T>, value: T)
    requires
        total_order::<T>(),
        ordered(link),
    ensures
        holds(link, value) ==> is_least_above(in_order(link), value, successor(link, value)),
        !holds(link, value) ==> successor(link, value).is_none(),
    decreases link,
{
    lemma_find(link, value);
    lemma_path(link, value);
    if let Some(node) = link {
        assert(link == link_to(*node));
        lemma_ordered_node(*node);
        lemma_trichotomy(value, node.value);
        lemma_holds_node(*node, value);
        lemma_ordered_sides(*node, value);
        lemma_find(node.left, value);
        lemma_find(node.right, value);
        lemma_path(node.left, value);
        lemma_path(node.right, value);
        if !holds(link, value) {
        } else if value == node.value {
            match node.right {
                Some(right) => {
                    assert(node.right == link_to(*right));
                    lemma_leftmost(*right);
                    let least = leftmost(*right);
                    lemma_holds_node(*node, least);
                    lemma_ordered_sides(*node, least);
                    assert forall|other: T|
                        in_order(link).contains(other) && lt(value, other) implies !lt(
                        other,
                        least,
                    ) by {
                        lemma_holds_node(*node, other);
                        lemma_ordered_sides(*node, other);
                        lemma_trichotomy(other, value);
                        lemma_trichotomy(other, least);
                    }
                },
                None => {
                    let alone = seq![value];
                    assert(alone.last() == value);
                    assert(alone.drop_last() =~= Seq::<T>::empty());
                    assert(last_above(alone.drop_last(), value).is_none());
                    assert(in_order(node.right) =~= Seq::<T>::empty());
                    assert forall|other: T| in_order(link).contains(other) implies !lt(
                        value,
                        other,
                    ) by {
                        lemma_holds_node(*node, other);
                        lemma_ordered_sides(*node, other);
                        lemma_trichotomy(other, value);
                    }
                },
            }
        } else if lt(value, node.value) {
            lemma_successor(node.left, value);
            lemma_last_above_front(node.value, path(node.left, value).unwrap(), value);
            let below = successor(node.left, value);
            assert(successor(link, value) == match below {
                Some(found) => Some(found),
                None => Some(node.value),
            });
            match below {
                Some(found) => {
                    lemma_holds_node(*node, found);
                    lemma_ordered_sides(*node, found);
                    assert forall|other: T|
                        in_order(link).contains(other) && lt(value, other) implies !lt(
                        other,
                        found,
                    ) by {
                        lemma_holds_node(*node, other);
                        lemma_ordered_sides(*node, other);
                        lemma_trichotomy(other, found);
                        if other == node.value {
                        } else if holds(node.right, other) {
                            lemma_lt_transitive(found, node.value, other);
                        }
                    }
                },
                None => {
                    lemma_holds_node(*node, node.value);
                    assert forall|other: T|
                        in_order(link).contains(other) && lt(value, other) implies !lt(
                        other,
                        node.value,
                    ) by {
                        lemma_holds_node(*node, other);
                        lemma_ordered_sides(*node, other);
                        lemma_trichotomy(other, node.value);
                    }
                },
            }
        } else {
            lemma_successor(node.right, value);
            lemma_last_above_front(node.value, path(node.right, value).unwrap(), value);
            let below = successor(node.right, value);
            assert(successor(link, value) == below);
            match below {
                Some(found) => {
                    lemma_holds_node(*node, found);
                    assert forall|other: T|
                        in_order(link).contains(other) && lt(value, other) implies !lt(
                        other,
                        found,
                    ) by {
                        lemma_holds_node(*node, other);
                        lemma_ordered_sides(*node, other);
                        lemma_trichotomy(other, value);
                        if holds(node.left, other) {
                            lemma_lt_transitive(other, node.value, value);
                        }
                    }
                },
                None => {
                    assert forall|other: T| in_order(link).contains(other) implies !lt(
                        value,
                        other,
                    ) by {
                        lemma_holds_node(*node, other);
                        lemma_ordered_sides(*node, other);
                        lemma_trichotomy(other, value);
                        if holds(node.left, other) {
                            lemma_lt_transitive(other, node.value, value);
                        }
                    }
                },
            }
        }
    } else {
        assert(in_order(link) =~= Seq::<T>::empty());
    }
}

/// Putting the node that a descent arrives at back in its place leaves the
/// tree as it was.
pub proof fn lemma_graft_found<T: Ord>(link: Node<T>, value: T)
    ensures
        find(link, value) matches Some(node) ==> graft(link, value, node) == link,
    decreases link,
{
    if let Some(node) = link {
        lemma_graft_found(node.left, value);
        lemma_graft_found(node.right, value);
    }
}

/// Whatever is inserted into and removed from an ordered tree, in whatever
/// sequence, the tree stays ordered: its values strictly ascend in in-order.
pub proof fn lemma_edits_keep_order<T: Ord>(root: Node<T>, edits: Seq<Edit<T>>)
    requires
        total_order::<T>(),
        ordered(root),
    ensures
        ordered(edited(root, edits)),
    decreases edits.len(),
{
    if edits.len() > 0 {
        lemma_edits_keep_order(root, edits.drop_last());
        let before = edited(root, edits.drop_last());
        match edits.last() {
            Edit::Insert(value) => lemma_inserted(before, value),
            Edit::Remove(value) => lemma_removed(before, value),
        }
    }
}

/// The empty tree is ordered, and so is every tree that inserting and
/// removing make of it.
pub proof fn lemma_built_trees_are_ordered<T: Ord>(edits: Seq<Edit<T>>)
    requires
        total_order::<T>(),
    ensures
        ordered(edited(None, edits)),
{
    assert(in_order(None::<Box<BinTreeNode<T>>>) =~= Seq::<T>::empty());
    lemma_edits_keep_order(None, edits);
}

/// Searching, removing and searching again in an ordered tree: a value that
/// the first search finds is removed and the second search does not find
/// it; a value that the first search does not find is not removed, and the
/// second search does not find it either.
pub proof fn lemma_search_remove_search<T: Ord>(root: Node<T>, value: T)
    requires
        total_order::<T>(),
        ordered(root),
    ensures
        removes(root, value) == find(root, value).is_some(),
        find(removed(root, value), value).is_none(),
{
    lemma_find(root, value);
    lemma_removed(root, value);
    lemma_find(removed(root, value), value);
}

} // verus!
