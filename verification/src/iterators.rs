//! The three ways to walk a search tree: by reference in ascending order,
//! by reference for writing, and by value. The last two yield the values in
//! the reverse of pre-order.

use crate::element::ascending;
use crate::node::{in_order, lemma_traversal_lengths, node_count, pre_order, same_shape, Node};
use crate::search_tree::BinSearchTree;
use vstd::prelude::*;

verus! {

/// The values that a stack of links still stands for: from the top of the
/// stack down, each node and then its right subtree in in-order.
pub open spec fn pending<T>(stack: Seq<&Node<T>>) -> Seq<T>
    decreases stack.len(),
{
    if stack.len() == 0 {
        Seq::empty()
    } else {
        match *stack.last() {
            Some(node) => seq![node.value] + in_order(node.right) + pending(stack.drop_last()),
            None => pending(stack.drop_last()),
        }
    }
}

/// The values behind a sequence of references for writing, as they are now,
/// last reference first.
pub open spec fn last_first<T>(handles: Seq<&mut T>) -> Seq<T> {
    Seq::new(handles.len(), |i: int| *handles[handles.len() - 1 - i])
}

/// Walks a tree by reference, in in-order. It keeps the links to the nodes
/// whose value and right subtree are still to come.
pub struct Iter<'a, T> {
    stack: Vec<&'a Node<T>>,
}

impl<'a, T> Iter<'a, T> {
    /// Every link on the stack leads to a node.
    #[verifier::type_invariant]
    spec fn wf(&self) -> bool {
        forall|i: int| 0 <= i < self.stack@.len() ==> self.stack@[i].is_some()
    }

    /// The values still to come, in the order in which they come.
    pub closed spec fn upcoming(&self) -> Seq<T> {
        pending(self.stack@)
    }

    /// Puts `link` and the links down its left spine on the stack.
    fn descend(stack: &mut Vec<&'a Node<T>>, link: &'a Node<T>)
        requires
            forall|i: int| 0 <= i < old(stack)@.len() ==> old(stack)@[i].is_some(),
        ensures
            forall|i: int| 0 <= i < final(stack)@.len() ==> final(stack)@[i].is_some(),
            pending(final(stack)@) == in_order(*link) + pending(old(stack)@),
    {
        let mut cur = link;
        loop
            invariant
                forall|i: int| 0 <= i < stack@.len() ==> stack@[i].is_some(),
                in_order(*cur) + pending(stack@) == in_order(*link) + pending(old(stack)@),
            ensures
                cur.is_none(),
            decreases node_count(*cur),
        {
            match cur {
                None => {
                    break ;
                },
                Some(node) => {
                    let ghost below = stack@;
                    stack.push(cur);
                    proof {
                        assert(stack@.drop_last() =~= below);
                        assert(in_order(node.left) + pending(stack@) =~= in_order(*cur) + pending(
                            below,
                        ));
                    }
                    cur = &node.left;
                },
            }
        }
        assert(in_order(*cur) + pending(stack@) =~= pending(stack@));
    }

    /// The link to the node whose value comes next in in-order, or `None`
    /// when all have been handed out.
    pub fn next(&mut self) -> (item: Option<&'a Node<T>>)
        ensures
            match item {
                Some(link) => link.is_some() && old(self).upcoming().len() > 0
                    && link.unwrap().value == old(self).upcoming()[0] && final(self).upcoming()
                    == old(self).upcoming().skip(1),
                None => old(self).upcoming().len() == 0 && final(self).upcoming().len() == 0,
            },
    {
        proof {
            use_type_invariant(&*self);
        }
        let mut stack = Vec::new();
        std::mem::swap(&mut stack, &mut self.stack);
        let ghost before = stack@;
        let item = stack.pop();
        match item {
            Some(Some(node)) => {
                Iter::descend(&mut stack, &node.right);
                proof {
                    assert(pending(stack@) =~= pending(before).skip(1));
                }
            },
            _ => {},
        }
        self.stack = stack;
        item
    }
}

/// Hands out references for writing to the values of a tree, in the reverse
/// of pre-order.
pub struct IterMut<'a, T> {
    nodes: Vec<&'a mut T>,
}

impl<'a, T> IterMut<'a, T> {
    /// The references still to come, the one that comes next last.
    pub closed spec fn handles(&self) -> Seq<&'a mut T> {
        self.nodes@
    }

    /// The values still to come as they are now, in the order in which they
    /// come.
    pub open spec fn upcoming(&self) -> Seq<T> {
        last_first(self.handles())
    }

    /// The next reference, or `None` when all have been handed out.
    pub fn next(&mut self) -> (item: Option<&'a mut T>)
        ensures
            match item {
                Some(handle) => old(self).handles().len() > 0
                    && handle == old(self).handles().last()
                    && final(self).handles() == old(self).handles().drop_last()
                    && *handle == old(self).upcoming()[0]
                    && final(self).upcoming() == old(self).upcoming().skip(1),
                None => old(self).handles().len() == 0 && final(self).handles().len() == 0,
            },
    {
        let item = self.nodes.pop();
        proof {
            if item.is_some() {
                assert(self.upcoming() =~= old(self).upcoming().skip(1));
            }
        }
        item
    }
}

/// Hands out the values of a tree, in the reverse of pre-order.
pub struct IntoIter<T> {
    nodes: Vec<T>,
}

impl<T> IntoIter<T> {
    /// The values still to come, in the order in which they come.
    pub closed spec fn upcoming(&self) -> Seq<T> {
        self.nodes@.reverse()
    }

    /// The next value, or `None` when all have been handed out.
    pub fn next(&mut self) -> (item: Option<T>)
        ensures
            match item {
                Some(value) => old(self).upcoming().len() > 0 && value == old(self).upcoming()[0]
                    && final(self).upcoming() == old(self).upcoming().skip(1),
                None => old(self).upcoming().len() == 0 && final(self).upcoming().len() == 0,
            },
    {
        let item = self.nodes.pop();
        proof {
            if item.is_some() {
                assert(self.upcoming() =~= old(self).upcoming().skip(1));
            }
        }
        item
    }
}

impl<T> BinSearchTree<T> where T: Ord + Clone {
    /// Walks the tree by reference, in in-order: in ascending order where
    /// the tree is ordered.
    pub fn iter(&self) -> (walk: Iter<'_, T>)
        ensures
            walk.upcoming() == in_order(self.root),
            self.is_bst() ==> ascending(walk.upcoming()),
    {
        let mut stack = Vec::new();
        Iter::descend(&mut stack, &self.root);
        assert(in_order(self.root) + pending(Seq::<&Node<T>>::empty()) =~= in_order(self.root));
        Iter { stack }
    }

    /// Hands out references for writing to the values, in the reverse of
    /// pre-order. The tree keeps its shape and ends up with what the caller
    /// leaves behind the references.
    pub fn iter_mut(&mut self) -> (walk: IterMut<'_, T>)
        ensures
            walk.upcoming() == pre_order(old(self).root).reverse(),
            walk.handles().len() == node_count(old(self).root),
            same_shape(old(self).root, final(self).root),
            forall|i: int|
                0 <= i < node_count(old(self).root) ==> pre_order(final(self).root)[i]
                    == *final(walk.handles()[i]),
    {
        let nodes = self.to_vec_mut();
        let walk = IterMut { nodes };
        proof {
            lemma_traversal_lengths(old(self).root);
            assert(walk.upcoming() =~= pre_order(old(self).root).reverse());
        }
        walk
    }

    /// Hands out the values, in the reverse of pre-order.
    pub fn into_iter(self) -> (walk: IntoIter<T>)
        ensures
            walk.upcoming() == pre_order(self.root).reverse(),
    {
        IntoIter { nodes: self.to_vec_into() }
    }
}

} // verus!
