//! A binary tree without an order on its values: the caller builds it node
//! by node, and the tree offers traversals, counts and a walk that applies a
//! function to every value.

use crate::element::exact_clone;
use crate::node::{
    clone_link, clones_of, copied, depth_of, in_order, leaf, lemma_clones_appended,
    lemma_clones_exact, lemma_pre_order_node, lemma_same_shape_count, lemma_traversal_lengths,
    link_to, node_count, post_order, pre_order, same_shape, BinTreeNode, Node,
};
use vstd::prelude::*;

verus! {

/// A binary tree, by its root.
pub struct BinaryTree<T> {
    pub root: Node<T>,
}

impl<T: Clone> Clone for BinaryTree<T> {
    /// A tree of the same shape that holds clones of the values.
    fn clone(&self) -> (copy: Self)
        ensures
            copied(self.root, copy.root),
            exact_clone::<T>() ==> copy == *self,
    {
        BinaryTree { root: clone_link(&self.root) }
    }
}

impl<T> BinaryTree<T> where T: Clone {
    /// A tree of one node that holds `value`.
    pub fn new(value: T) -> (tree: Self)
        ensures
            tree.root == link_to(leaf(value)),
    {
        BinaryTree { root: Some(Box::new(BinTreeNode { value, left: None, right: None })) }
    }

    /// Applies `fun` to every value of the tree, in pre-order. The tree
    /// keeps its shape, and each value becomes what `fun` makes of it: there
    /// is a sequence of the references that `fun` was called with, one for
    /// each node in pre-order, from the value before to the value after.
    pub fn apply<F>(&mut self, fun: F) where F: Fn(&mut T)
        requires
            old(self).root.is_some(),
            forall|handle: &mut T|
                pre_order(old(self).root).contains(*handle) ==> call_requires(&fun, (handle,)),
        ensures
            same_shape(old(self).root, final(self).root),
            exists|handles: Seq<&mut T>|
                #[trigger] handles.len() == node_count(old(self).root) && forall|i: int|
                    0 <= i < handles.len() ==> call_ensures(&fun, (#[trigger] handles[i],), ())
                        && *handles[i] == pre_order(old(self).root)[i] && *final(handles[i])
                        == pre_order(final(self).root)[i],
    {
        let node = self.root.as_mut().unwrap();
        let ghost at_root = *node;
        BinaryTree::apply_fn(node, &fun);
        let ghost now_root = *node;
        proof {
            assert(old(self).root == Some(at_root));
            assert(final(self).root == Some(now_root));
            let given = choose|handles: Seq<&mut T>|
                #[trigger] handles.len() == node_count(Some(at_root)) && forall|i: int|
                    0 <= i < handles.len() ==> call_ensures(&fun, (#[trigger] handles[i],), ())
                        && *handles[i] == pre_order(Some(at_root))[i] && *final(handles[i])
                        == pre_order(Some(now_root))[i];
            assert(given.len() == node_count(old(self).root));
        }
    }

    /// Applies `fun` to the value of `node` and to every value below it, in
    /// pre-order.
    fn apply_fn<F>(node: &mut Box<BinTreeNode<T>>, fun: &F) where F: Fn(&mut T)
        requires
            forall|handle: &mut T|
                pre_order(Some(*old(node))).contains(*handle) ==> call_requires(fun, (handle,)),
        ensures
            same_shape(Some(*old(node)), Some(*final(node))),
            exists|handles: Seq<&mut T>|
                #[trigger] handles.len() == node_count(Some(*old(node))) && forall|i: int|
                    0 <= i < handles.len() ==> call_ensures(fun, (#[trigger] handles[i],), ())
                        && *handles[i] == pre_order(Some(*old(node)))[i] && *final(handles[i])
                        == pre_order(Some(*final(node)))[i],
        decreases *old(node),
    {
        let ghost before = Some(*node);
        let ghost after = Some(*final(node));
        let ghost value_before = node.value;
        proof {
            lemma_pre_order_node(**node);
        }
        fun(&mut node.value);
        let ghost value_after = node.value;
        let ghost first = choose|handle: &mut T|
            #[trigger] call_ensures(fun, (handle,), ()) && *handle == value_before && *final(handle)
                == value_after;
        let ghost old_left = node.left;
        let ghost old_right = node.right;
        match node.left {
            Some(ref mut left) => BinaryTree::apply_fn(left, fun),
            None => {},
        }
        match node.right {
            Some(ref mut right) => BinaryTree::apply_fn(right, fun),
            None => {},
        }
        proof {
            let new_left = after.unwrap().left;
            let new_right = after.unwrap().right;
            assert(same_shape(old_left, new_left));
            assert(same_shape(old_right, new_right));
            lemma_traversal_lengths(old_left);
            lemma_traversal_lengths(old_right);
            lemma_traversal_lengths(new_left);
            lemma_traversal_lengths(new_right);
            lemma_same_shape_count(old_left, new_left);
            lemma_same_shape_count(old_right, new_right);
            let on_left = if old_left.is_some() {
                choose|handles: Seq<&mut T>|
                    #[trigger] handles.len() == node_count(old_left) && forall|i: int|
                        0 <= i < handles.len() ==> call_ensures(fun, (#[trigger] handles[i],), ())
                            && *handles[i] == pre_order(old_left)[i] && *final(handles[i])
                            == pre_order(new_left)[i]
            } else {
                Seq::empty()
            };
            let on_right = if old_right.is_some() {
                choose|handles: Seq<&mut T>|
                    #[trigger] handles.len() == node_count(old_right) && forall|i: int|
                        0 <= i < handles.len() ==> call_ensures(fun, (#[trigger] handles[i],), ())
                            && *handles[i] == pre_order(old_right)[i] && *final(handles[i])
                            == pre_order(new_right)[i]
            } else {
                Seq::empty()
            };
            let given = seq![first] + on_left + on_right;
            let in_left = on_left.len() as int;
            assert(given.len() == node_count(before));
            assert forall|i: int| 0 <= i < given.len() implies call_ensures(
                fun,
                (#[trigger] given[i],),
                (),
            ) && *given[i] == pre_order(before)[i] && *final(given[i]) == pre_order(after)[i] by {
                if i == 0 {
                    assert(given[i] == first);
                } else if i <= in_left {
                    assert(given[i] == on_left[i - 1]);
                } else {
                    assert(given[i] == on_right[i - 1 - in_left]);
                }
            }
        }
    }

    /// The number of nodes on the longest way down from the root.
    pub fn depth(&self) -> (levels: u32)
        requires
            self.root.is_some(),
            depth_of(self.root) <= u32::MAX,
        ensures
            levels == depth_of(self.root),
    {
        BinaryTree::depth_rec(self.root.as_ref().unwrap())
    }

    /// The number of nodes on the longest way down from `node`.
    fn depth_rec(node: &BinTreeNode<T>) -> (levels: u32)
        requires
            depth_of(link_to(*node)) <= u32::MAX,
        ensures
            levels == depth_of(link_to(*node)),
        decreases node,
    {
        let left: u32 = match node.left {
            Some(ref left) => {
                assert(node.left == link_to(**left));
                BinaryTree::depth_rec(left)
            },
            None => 0,
        };
        let right: u32 = match node.right {
            Some(ref right) => {
                assert(node.right == link_to(**right));
                BinaryTree::depth_rec(right)
            },
            None => 0,
        };
        assert(left == depth_of(node.left));
        assert(right == depth_of(node.right));
        if left >= right {
            left + 1
        } else {
            right + 1
        }
    }

    /// The number of nodes.
    pub fn count(&self) -> (nodes: u32)
        requires
            self.root.is_some(),
            node_count(self.root) <= u32::MAX,
        ensures
            nodes == node_count(self.root),
    {
        let mut result: u32 = 0;
        BinaryTree::preorder_count(self.root.as_ref().unwrap(), &mut result);
        result
    }

    /// Adds the number of nodes below `node`, itself included, to `res`.
    fn preorder_count(node: &BinTreeNode<T>, res: &mut u32)
        requires
            *old(res) + node_count(link_to(*node)) <= u32::MAX,
        ensures
            *final(res) == *old(res) + node_count(link_to(*node)),
        decreases node,
    {
        *res += 1;
        match node.left {
            Some(ref left) => {
                assert(node.left == link_to(**left));
                BinaryTree::preorder_count(left, res)
            },
            None => {},
        }
        assert(*res == *old(res) + 1 + node_count(node.left));
        match node.right {
            Some(ref right) => {
                assert(node.right == link_to(**right));
                BinaryTree::preorder_count(right, res)
            },
            None => {},
        }
        assert(*res == *old(res) + 1 + node_count(node.left) + node_count(node.right));
    }

    /// Clones of the values, in pre-order.
    pub fn to_vec_pre(&self) -> (result: Vec<T>)
        requires
            self.root.is_some(),
        ensures
            clones_of(pre_order(self.root), result@),
            exact_clone::<T>() ==> result@ == pre_order(self.root),
    {
        let mut result = Vec::new();
        BinaryTree::preorder(self.root.as_ref().unwrap(), &mut result);
        proof {
            assert(result@ =~= result@.skip(0));
            if exact_clone::<T>() {
                lemma_clones_exact(pre_order(self.root), result@);
            }
        }
        result
    }

    /// Appends clones of the values below `node`, in pre-order.
    fn preorder(node: &BinTreeNode<T>, res: &mut Vec<T>)
        ensures
            final(res)@.len() == old(res)@.len() + node_count(link_to(*node)),
            final(res)@.take(old(res)@.len() as int) == old(res)@,
            clones_of(pre_order(link_to(*node)), final(res)@.skip(old(res)@.len() as int)),
        decreases node,
    {
        let ghost at_start = res@;
        res.push(node.value.clone());
        proof {
            assert(res@.take(at_start.len() as int) =~= at_start);
            assert(clones_of(seq![node.value], res@.skip(at_start.len() as int))) by {
                assert(res@.skip(at_start.len() as int)[0] == res@[at_start.len() as int]);
            }
        }
        let ghost with_node = res@;
        match node.left {
            Some(ref left) => {
                assert(node.left == link_to(**left));
                BinaryTree::preorder(left, res)
            },
            None => {
                assert(res@.take(with_node.len() as int) =~= with_node);
                assert(res@.skip(with_node.len() as int) =~= Seq::<T>::empty());
            },
        }
        proof {
            lemma_clones_appended(
                at_start,
                with_node,
                res@,
                seq![node.value],
                pre_order(node.left),
            );
        }
        let ghost with_left = res@;
        match node.right {
            Some(ref right) => {
                assert(node.right == link_to(**right));
                BinaryTree::preorder(right, res)
            },
            None => {
                assert(res@.take(with_left.len() as int) =~= with_left);
                assert(res@.skip(with_left.len() as int) =~= Seq::<T>::empty());
            },
        }
        proof {
            lemma_clones_appended(
                at_start,
                with_left,
                res@,
                seq![node.value] + pre_order(node.left),
                pre_order(node.right),
            );
            assert(res@.len() == at_start.len() + 1 + node_count(node.left) + node_count(
                node.right,
            ));
        }
    }

    /// Clones of the values, in in-order.
    pub fn to_vec_in(&self) -> (result: Vec<T>)
        requires
            self.root.is_some(),
        ensures
            clones_of(in_order(self.root), result@),
            exact_clone::<T>() ==> result@ == in_order(self.root),
    {
        let mut result = Vec::new();
        BinaryTree::inorder(self.root.as_ref().unwrap(), &mut result);
        proof {
            assert(result@ =~= result@.skip(0));
            if exact_clone::<T>() {
                lemma_clones_exact(in_order(self.root), result@);
            }
        }
        result
    }

    /// Appends clones of the values below `node`, in in-order.
    fn inorder(node: &BinTreeNode<T>, res: &mut Vec<T>)
        ensures
            final(res)@.len() == old(res)@.len() + node_count(link_to(*node)),
            final(res)@.take(old(res)@.len() as int) == old(res)@,
            clones_of(in_order(link_to(*node)), final(res)@.skip(old(res)@.len() as int)),
        decreases node,
    {
        let ghost at_start = res@;
        match node.left {
            Some(ref left) => {
                assert(node.left == link_to(**left));
                BinaryTree::inorder(left, res)
            },
            None => {
                assert(res@.take(at_start.len() as int) =~= at_start);
                assert(res@.skip(at_start.len() as int) =~= Seq::<T>::empty());
            },
        }
        let ghost with_left = res@;
        res.push(node.value.clone());
        proof {
            assert(res@.take(with_left.len() as int) =~= with_left);
            assert(clones_of(seq![node.value], res@.skip(with_left.len() as int))) by {
                assert(res@.skip(with_left.len() as int)[0] == res@[with_left.len() as int]);
            }
        }
        proof {
            lemma_clones_appended(at_start, with_left, res@, in_order(node.left), seq![node.value]);
        }
        let ghost with_node = res@;
        match node.right {
            Some(ref right) => {
                assert(node.right == link_to(**right));
                BinaryTree::inorder(right, res)
            },
            None => {
                assert(res@.take(with_node.len() as int) =~= with_node);
                assert(res@.skip(with_node.len() as int) =~= Seq::<T>::empty());
            },
        }
        proof {
            lemma_clones_appended(
                at_start,
                with_node,
                res@,
                in_order(node.left) + seq![node.value],
                in_order(node.right),
            );
            assert(res@.len() == at_start.len() + 1 + node_count(node.left) + node_count(
                node.right,
            ));
        }
    }

    /// Clones of the values, in post-order.
    pub fn to_vec_post(&self) -> (result: Vec<T>)
        requires
            self.root.is_some(),
        ensures
            clones_of(post_order(self.root), result@),
            exact_clone::<T>() ==> result@ == post_order(self.root),
    {
        let mut result = Vec::new();
        BinaryTree::postorder(self.root.as_ref().unwrap(), &mut result);
        proof {
            assert(result@ =~= result@.skip(0));
            if exact_clone::<T>() {
                lemma_clones_exact(post_order(self.root), result@);
            }
        }
        result
    }

    /// Appends clones of the values below `node`, in post-order.
    fn postorder(node: &BinTreeNode<T>, res: &mut Vec<T>)
        ensures
            final(res)@.len() == old(res)@.len() + node_count(link_to(*node)),
            final(res)@.take(old(res)@.len() as int) == old(res)@,
            clones_of(post_order(link_to(*node)), final(res)@.skip(old(res)@.len() as int)),
        decreases node,
    {
        let ghost at_start = res@;
        match node.left {
            Some(ref left) => {
                assert(node.left == link_to(**left));
                BinaryTree::postorder(left, res)
            },
            None => {
                assert(res@.take(at_start.len() as int) =~= at_start);
                assert(res@.skip(at_start.len() as int) =~= Seq::<T>::empty());
            },
        }
        let ghost with_left = res@;
        match node.right {
            Some(ref right) => {
                assert(node.right == link_to(**right));
                BinaryTree::postorder(right, res)
            },
            None => {
                assert(res@.take(with_left.len() as int) =~= with_left);
                assert(res@.skip(with_left.len() as int) =~= Seq::<T>::empty());
            },
        }
        proof {
            lemma_clones_appended(
                at_start,
                with_left,
                res@,
                post_order(node.left),
                post_order(node.right),
            );
        }
        let ghost with_right = res@;
        res.push(node.value.clone());
        proof {
            assert(res@.take(with_right.len() as int) =~= with_right);
            assert(clones_of(seq![node.value], res@.skip(with_right.len() as int))) by {
                assert(res@.skip(with_right.len() as int)[0] == res@[with_right.len() as int]);
            }
        }
        proof {
            lemma_clones_appended(
                at_start,
                with_right,
                res@,
                post_order(node.left) + post_order(node.right),
                seq![node.value],
            );
            assert(res@.len() == at_start.len() + 1 + node_count(node.left) + node_count(
                node.right,
            ));
        }
    }
}

} // verus!
