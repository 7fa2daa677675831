//! Binary sort tree: an unbalanced search tree of distinct keys.

use crate::adjacency_list::{
    drain_labels, emission, emit_row, with_successor, AdjacencyList, Row,
};
use crate::forest::{
    children, forest_levels_above, forest_size, lemma_forest_empty, lemma_forest_single,
    lemma_queue_step, lemma_walk_step, queue_fits,
};
use crate::key::{labels, Key};
use crate::laws::{
    lemma_height_le_size, lemma_identity_of_key, lemma_insert_absent, lemma_insert_contains,
    lemma_insert_ordered, lemma_insert_present, lemma_ordered_traversals, lemma_remove_absent,
    lemma_remove_contains, lemma_remove_ordered, lemma_remove_present,
};
use crate::route::{route_text, RouteBuilder};
use crate::shape::{strictly_increasing, Shape};
use std::collections::VecDeque;
use vstd::prelude::*;

verus! {

/// A node of the tree: a key, the node's identity and the two subtrees.
#[derive(Debug)]
pub struct Node<T: Key> {
    val: T,
    id: usize,
    left: Option<Box<Node<T>>>,
    right: Option<Box<Node<T>>>,
}

/// A binary sort tree. Every node holds another key, and a search for a
/// key goes left at a node with a larger key and right at one with a
/// smaller key.
#[derive(Debug)]
pub struct BinarySortTree<T: Key> {
    root: Option<Box<Node<T>>>,
    next_id: usize,
}

/// Why the tree refused an operation.
#[derive(Debug)]
pub enum BinarySortTreeError {
    /// The tree does not have the key that was to be removed.
    NodeNotFound,
    /// The tree already has the key that was to be inserted.
    ValueAlreadyExisted,
}

/// The shape of the subtree that hangs at `link`.
spec fn link_shape<T: Key>(link: Option<Box<Node<T>>>) -> Shape<T>
    decreases link,
{
    match link {
        None => Shape::Empty,
        Some(node) => Shape::Fork {
            left: Box::new(link_shape(node.left)),
            key: node.val,
            id: node.id,
            right: Box::new(link_shape(node.right)),
        },
    }
}

/// The shapes of the subtrees whose roots wait in a queue.
spec fn queued_shapes<T: Key>(queue: Seq<&Box<Node<T>>>) -> Seq<Shape<T>> {
    Seq::new(queue.len(), |i: int| queue[i]@)
}

impl<T: Key> View for Node<T> {
    type V = Shape<T>;

    /// The shape of the tree below this node, the node included.
    closed spec fn view(&self) -> Shape<T> {
        Shape::Fork {
            left: Box::new(link_shape(self.left)),
            key: self.val,
            id: self.id,
            right: Box::new(link_shape(self.right)),
        }
    }
}

impl<T: Key> Node<T> {
    /// A node without children, with the key `val` and the identity `id`.
    pub fn new(val: T, id: usize) -> (node: Self)
        ensures
            node@ == Shape::single(val, id),
    {
        Self { val, id, left: None, right: None }
    }

    /// Hangs a new node without children on the left, in place of what
    /// was there.
    pub fn set_left(&mut self, val: T, id: usize)
        ensures
            final(self)@ == (Shape::Fork {
                left: Box::new(Shape::single(val, id)),
                key: old(self)@->key,
                id: old(self)@->id,
                right: old(self)@->right,
            }),
    {
        self.left = Some(Box::new(Node::new(val, id)));
    }

    /// Hangs a new node without children on the right, in place of what
    /// was there.
    pub fn set_right(&mut self, val: T, id: usize)
        ensures
            final(self)@ == (Shape::Fork {
                left: old(self)@->left,
                key: old(self)@->key,
                id: old(self)@->id,
                right: Box::new(Shape::single(val, id)),
            }),
    {
        self.right = Some(Box::new(Node::new(val, id)));
    }
}

/// A copy of the subtree that hangs at `link`.
fn copy_link<T: Key>(link: &Option<Box<Node<T>>>) -> (copy: Option<Box<Node<T>>>)
    ensures
        link_shape(copy) == link_shape(*link),
    decreases link_shape(*link).size(), 1nat,
{
    match link {
        None => None,
        Some(node) => Some(Box::new((**node).clone())),
    }
}

impl<T: Key> Clone for Node<T> {
    /// A second subtree of the same shape, with the same keys and
    /// identities.
    fn clone(&self) -> (copy: Self)
        ensures
            copy@ == self@,
        decreases self@.size(), 0nat,
    {
        Self {
            val: self.val,
            id: self.id,
            left: copy_link(&self.left),
            right: copy_link(&self.right),
        }
    }
}

impl<T: Key> Clone for BinarySortTree<T> {
    /// A second tree of the same shape, with the same keys and identities.
    fn clone(&self) -> (copy: Self)
        ensures
            copy@ == self@,
            copy.issued() == self.issued(),
    {
        Self { root: copy_link(&self.root), next_id: self.next_id }
    }
}

impl<T: Key> View for BinarySortTree<T> {
    type V = Shape<T>;

    /// The shape of the tree.
    closed spec fn view(&self) -> Shape<T> {
        link_shape(self.root)
    }
}

impl<T: Key> BinarySortTree<T> {
    /// How many identities the tree has given out so far.
    pub closed spec fn issued(&self) -> nat {
        self.next_id as nat
    }

    /// The tree is a search tree, its nodes have distinct identities that
    /// were all given out by this tree, and it has no more nodes than
    /// identities were given out.
    pub open spec fn wf(&self) -> bool {
        &&& self@.ordered()
        &&& self@.ids_distinct()
        &&& self@.ids_below(self.issued())
        &&& self@.size() <= self.issued()
        &&& self.issued() <= usize::MAX
    }

    /// The empty tree.
    pub fn new() -> (tree: Self)
        ensures
            tree.wf(),
            tree@ == Shape::<T>::Empty,
            tree.issued() == 0,
    {
        Self { root: None, next_id: 0 }
    }

    /// Inserts `val` in a new node, which gets the next identity. A key
    /// that the tree already has is refused, and the tree stays as it is.
    ///
    /// The tree counts the identities it gives out in a `usize`, so one
    /// must be left.
    pub fn insert(&mut self, val: T) -> (res: Result<(), BinarySortTreeError>)
        requires
            old(self).wf(),
            old(self).issued() < usize::MAX,
        ensures
            final(self).wf(),
            old(self)@.contains(val) ==> res == Err::<(), BinarySortTreeError>(
                BinarySortTreeError::ValueAlreadyExisted,
            ) && final(self)@ == old(self)@ && final(self).issued() == old(self).issued(),
            !old(self)@.contains(val) ==> res == Ok::<(), BinarySortTreeError>(()) && final(self)@
                == old(self)@.insert(val, old(self).issued() as usize) && final(self).issued()
                == old(self).issued() + 1,
            forall|k: T| final(self)@.contains(k) <==> old(self)@.contains(k) || k == val,
    {
        let id = self.next_id;
        proof {
            assert forall|k: T|
                self@.insert(val, id).contains(k) <==> self@.contains(k) || k == val by {
                lemma_insert_contains(self@, val, id, k);
            }
            lemma_insert_ordered(self@, val, id);
            if self@.contains(val) {
                lemma_insert_present(self@, val, id);
            } else {
                lemma_insert_absent(self@, val, id);
            }
        }
        let res = if let Some(root) = &mut self.root {
            Self::insert_helper(root, val, id)
        } else {
            self.root = Some(Box::new(Node::new(val, id)));
            Ok(())
        };
        if res.is_ok() {
            self.next_id = self.next_id + 1;
        }
        res
    }

    fn insert_helper(node: &mut Box<Node<T>>, val: T, id: usize) -> (res: Result<
        (),
        BinarySortTreeError,
    >)
        requires
            old(node)@.ordered(),
        ensures
            final(node)@ == old(node)@.insert(val, id),
            old(node)@.contains(val) ==> res == Err::<(), BinarySortTreeError>(
                BinarySortTreeError::ValueAlreadyExisted,
            ),
            !old(node)@.contains(val) ==> res == Ok::<(), BinarySortTreeError>(()),
        decreases old(node)@.size(),
    {
        if val.is_same(&node.val) {
            return Err(BinarySortTreeError::ValueAlreadyExisted);
        }
        if node.val.is_below(&val) {
            proof {
                if link_shape(node.left).contains(val) {
                    T::below_transitive(val, node.val, val);
                    T::below_irreflexive(val);
                }
            }
            if let Some(right) = &mut node.right {
                return Self::insert_helper(right, val, id);
            } else {
                node.set_right(val, id);
                proof {
                    reveal_with_fuel(Shape::insert, 2);
                    reveal_with_fuel(Shape::contains, 2);
                }
            }
        } else {
            proof {
                T::below_connected(val, node.val);
                if link_shape(node.right).contains(val) {
                    T::below_transitive(val, node.val, val);
                    T::below_irreflexive(val);
                }
            }
            if let Some(left) = &mut node.left {
                return Self::insert_helper(left, val, id);
            } else {
                node.set_left(val, id);
                proof {
                    reveal_with_fuel(Shape::insert, 2);
                    reveal_with_fuel(Shape::contains, 2);
                }
            }
        }
        Ok(())
    }

    /// Removes the node that holds `target`. A key that the tree does not
    /// have is reported, and the tree stays as it is.
    pub fn remove(&mut self, target: &T) -> (res: Result<(), BinarySortTreeError>)
        requires
            old(self).wf(),
        ensures
            final(self).wf(),
            final(self)@ == old(self)@.remove(*target),
            final(self).issued() == old(self).issued(),
            old(self)@.contains(*target) ==> res == Ok::<(), BinarySortTreeError>(()),
            !old(self)@.contains(*target) ==> res == Err::<(), BinarySortTreeError>(
                BinarySortTreeError::NodeNotFound,
            ) && final(self)@ == old(self)@,
            forall|k: T| final(self)@.contains(k) <==> old(self)@.contains(k) && k != *target,
    {
        proof {
            lemma_remove_contains(self@, *target);
            lemma_remove_ordered(self@, *target);
            if self@.contains(*target) {
                lemma_remove_present(self@, *target);
            } else {
                lemma_remove_absent(self@, *target);
            }
        }
        Self::remove_helper(&mut self.root, target)
    }

    fn remove_helper(node: &mut Option<Box<Node<T>>>, target: &T) -> (res: Result<
        (),
        BinarySortTreeError,
    >)
        requires
            link_shape(*old(node)).ordered(),
        ensures
            link_shape(*final(node)) == link_shape(*old(node)).remove(*target),
            link_shape(*old(node)).contains(*target) ==> res == Ok::<(), BinarySortTreeError>(()),
            !link_shape(*old(node)).contains(*target) ==> res == Err::<(), BinarySortTreeError>(
                BinarySortTreeError::NodeNotFound,
            ),
        decreases link_shape(*old(node)).size(),
    {
        if node.is_none() {
            return Err(BinarySortTreeError::NodeNotFound);
        }
        let ghost before = link_shape(*node);
        let node_val = &node.as_ref().unwrap().val;
        if target.is_below(node_val) {
            proof {
                T::below_irreflexive(*target);
                if before->right.contains(*target) {
                    T::below_transitive(*target, *node_val, *target);
                }
            }
            let res = Self::remove_helper(&mut node.as_mut().unwrap().left, target);
            assert(link_shape(*node) == before.remove(*target));
            res
        } else if node_val.is_below(target) {
            proof {
                T::below_irreflexive(*target);
                if before->left.contains(*target) {
                    T::below_transitive(*target, *node_val, *target);
                }
            }
            let res = Self::remove_helper(&mut node.as_mut().unwrap().right, target);
            assert(link_shape(*node) == before.remove(*target));
            res
        } else {
            proof {
                T::below_connected(*target, *node_val);
            }
            let node_mut = node.as_mut().unwrap();
            let ghost left = link_shape(node_mut.left);
            let ghost right = link_shape(node_mut.right);
            assert(before->left == left && before->right == right);
            if node_mut.left.is_some() && node_mut.right.is_none() {
                let left_node = node_mut.left.take();
                *node = left_node;
                assert(right is Empty && left is Fork);
                assert(link_shape(*node) == left);
            } else if node_mut.right.is_some() && node_mut.left.is_none() {
                let right_node = node_mut.right.take();
                *node = right_node;
                assert(left is Empty);
                assert(link_shape(*node) == right);
            } else if node_mut.right.is_none() && node_mut.left.is_none() {
                node.take();
                assert(left is Empty && right is Empty);
                assert(link_shape(*node) == right);
            } else {
                assert(left is Fork && right is Fork);
                node_mut.val = Self::get_max_node_val(&mut node_mut.left);
                assert(link_shape(*node) == (Shape::Fork {
                    left: Box::new(left.without_max()),
                    key: left.max_key(),
                    id: before->id,
                    right: Box::new(right),
                }));
            }
            assert(link_shape(*node) == before.remove(*target));
            Ok(())
        }
    }

    /// Takes the rightmost node out of the subtree at `node` and returns
    /// its key.
    fn get_max_node_val(node: &mut Option<Box<Node<T>>>) -> (top: T)
        requires
            *old(node) is Some,
        ensures
            top == link_shape(*old(node)).max_key(),
            link_shape(*final(node)) == link_shape(*old(node)).without_max(),
        decreases link_shape(*old(node)).size(),
    {
        let ghost before = link_shape(*node);
        let node_mut = node.as_mut().unwrap();
        assert(before == node_mut@);
        if node_mut.right.is_some() {
            let top = Self::get_max_node_val(&mut node_mut.right);
            assert(link_shape(*node) == before.without_max());
            top
        } else {
            let ret = node_mut.val;
            let left_node = node_mut.left.take();
            *node = left_node;
            assert(link_shape(*node) == before.without_max());
            ret
        }
    }

    /// Returns tree's height: the number of nodes on the longest way from
    /// the root down, 0 for the empty tree.
    pub fn height(&self) -> (h: usize)
        requires
            self.wf(),
        ensures
            h == self@.height(),
    {
        proof {
            lemma_height_le_size(self@);
        }
        if let Some(root) = &self.root {
            Self::get_height(root)
        } else {
            0
        }
    }

    fn get_height(node: &Box<Node<T>>) -> (h: usize)
        requires
            node@.height() <= usize::MAX,
        ensures
            h == node@.height(),
        decreases node@.size(),
    {
        proof {
            reveal_with_fuel(Shape::height, 2);
        }
        let mut left_height: usize = 0;
        let mut right_height: usize = 0;
        if let Some(left_node) = &node.left {
            left_height += Self::get_height(left_node);
        }
        if let Some(right_node) = &node.right {
            right_height += Self::get_height(right_node);
        }
        if left_height >= right_height {
            left_height + 1
        } else {
            right_height + 1
        }
    }

    /// Get all leaf nodes: the keys of the nodes without children, from
    /// left to right. `None` for the empty tree.
    pub fn leaves(&self) -> (res: Option<Vec<T>>)
        ensures
            self@ is Empty ==> res is None,
            self@ is Fork ==> res is Some && res->0@ == self@.leaves(),
    {
        if let Some(root) = &self.root {
            let mut leaves = Vec::new();
            Self::get_leaves(root, &mut leaves);
            Some(leaves)
        } else {
            None
        }
    }

    fn get_leaves(node: &Box<Node<T>>, leaves: &mut Vec<T>)
        ensures
            final(leaves)@ == old(leaves)@ + node@.leaves(),
        decreases node@.size(),
    {
        proof {
            reveal_with_fuel(Shape::leaves, 2);
        }
        if let Some(left_node) = &node.left {
            Self::get_leaves(left_node, leaves);
        }
        assert(leaves@ =~= old(leaves)@ + link_shape(node.left).leaves());
        if let Some(right_node) = &node.right {
            Self::get_leaves(right_node, leaves);
        }
        assert(leaves@ =~= old(leaves)@ + link_shape(node.left).leaves() + link_shape(
            node.right,
        ).leaves());
        if node.left.is_none() && node.right.is_none() {
            leaves.push(node.val)
        }
        assert(leaves@ =~= old(leaves)@ + node@.leaves());
    }

    /// The keys in ascending order.
    pub fn inorder(&self) -> (keys: Vec<T>)
        ensures
            keys@ == self@.inorder(),
            self.wf() ==> strictly_increasing(keys@),
    {
        proof {
            if self.wf() {
                lemma_ordered_traversals(self@);
            }
        }
        let mut keys = Vec::new();
        if let Some(root) = &self.root {
            Self::inorder_helper(root, &mut keys);
        }
        keys
    }

    fn inorder_helper(node: &Box<Node<T>>, keys: &mut Vec<T>)
        ensures
            final(keys)@ == old(keys)@ + node@.inorder(),
        decreases node@.size(),
    {
        proof {
            reveal_with_fuel(Shape::inorder, 2);
        }
        if let Some(left_node) = &node.left {
            Self::inorder_helper(left_node, keys);
        }
        assert(keys@ =~= old(keys)@ + link_shape(node.left).inorder());
        keys.push(node.val);
        if let Some(right_node) = &node.right {
            Self::inorder_helper(right_node, keys);
        }
        assert(keys@ =~= old(keys)@ + node@.inorder());
    }

    /// Inorder traversal: the labels of the keys in ascending order, with
    /// an arrow between each two. The empty tree gives the empty string.
    pub fn inorder_traversal(&self) -> (text: String)
        ensures
            text@ == route_text(labels(self@.inorder())),
    {
        if let Some(root) = &self.root {
            let mut route_builder = RouteBuilder::with_arrow();
            Self::inorder_traversal_helper(root, &mut route_builder);
            assert(route_builder@ =~= labels(self@.inorder()));
            route_builder.build()
        } else {
            assert(labels(self@.inorder()) =~= Seq::<Seq<char>>::empty());
            String::new()
        }
    }

    fn inorder_traversal_helper(node: &Box<Node<T>>, route_builder: &mut RouteBuilder)
        ensures
            final(route_builder)@ == old(route_builder)@ + labels(node@.inorder()),
        decreases node@.size(),
    {
        proof {
            reveal_with_fuel(Shape::inorder, 2);
        }
        if let Some(node) = &node.left {
            Self::inorder_traversal_helper(node, route_builder);
        }
        assert(route_builder@ =~= old(route_builder)@ + labels(link_shape(node.left).inorder()));
        route_builder.push(node.val.label());
        if let Some(node) = &node.right {
            Self::inorder_traversal_helper(node, route_builder);
        }
        assert(route_builder@ =~= old(route_builder)@ + labels(node@.inorder()));
    }

    /// Whether the tree has the key `value`.
    pub fn contains(&self, value: &T) -> (found: bool)
        requires
            self.wf(),
        ensures
            found == self@.contains(*value),
    {
        if let Some(root) = &self.root {
            Self::contains_helper(root, value)
        } else {
            false
        }
    }

    fn contains_helper(node: &Box<Node<T>>, value: &T) -> (found: bool)
        requires
            node@.ordered(),
        ensures
            found == node@.contains(*value),
        decreases node@.size(),
    {
        proof {
            reveal_with_fuel(Shape::contains, 2);
        }
        if node.val.is_same(value) {
            return true;
        }
        if value.is_below(&node.val) {
            proof {
                T::below_irreflexive(*value);
                if link_shape(node.right).contains(*value) {
                    T::below_transitive(*value, node.val, *value);
                }
            }
            if let Some(left_node) = &node.left {
                return Self::contains_helper(left_node, value);
            }
        } else {
            proof {
                T::below_connected(*value, node.val);
                T::below_irreflexive(*value);
                if link_shape(node.left).contains(*value) {
                    T::below_transitive(*value, node.val, *value);
                }
            }
            if let Some(right_node) = &node.right {
                return Self::contains_helper(right_node, value);
            }
        }
        false
    }

    /// The identity of the node that holds `value`, if the tree has it.
    /// Two nodes of one tree never have the same identity, and a node
    /// keeps its identity as long as it is in the tree.
    pub fn get_addr(&self, value: &T) -> (addr: Option<usize>)
        requires
            self.wf(),
        ensures
            addr == self@.identity_of(*value),
            addr is Some <==> self@.contains(*value),
    {
        if let Some(root) = &self.root {
            Self::get_addr_helper(root, value)
        } else {
            None
        }
    }

    fn get_addr_helper(node: &Box<Node<T>>, value: &T) -> (addr: Option<usize>)
        requires
            node@.ordered(),
        ensures
            addr == node@.identity_of(*value),
            addr is Some <==> node@.contains(*value),
        decreases node@.size(),
    {
        proof {
            reveal_with_fuel(Shape::contains, 2);
            reveal_with_fuel(Shape::identity_of, 2);
            lemma_identity_of_key(link_shape(node.left), *value);
            lemma_identity_of_key(link_shape(node.right), *value);
        }
        if node.val.is_same(value) {
            return Some(node.id);
        }
        if value.is_below(&node.val) && node.left.is_some() {
            proof {
                T::below_irreflexive(*value);
                if link_shape(node.right).contains(*value) {
                    T::below_transitive(*value, node.val, *value);
                }
            }
            Self::get_addr_helper(node.left.as_ref().unwrap(), value)
        } else if node.val.is_below(value) && node.right.is_some() {
            proof {
                T::below_irreflexive(*value);
                if link_shape(node.left).contains(*value) {
                    T::below_transitive(*value, node.val, *value);
                }
            }
            Self::get_addr_helper(node.right.as_ref().unwrap(), value)
        } else {
            proof {
                T::below_connected(*value, node.val);
                T::below_irreflexive(*value);
                if link_shape(node.left).contains(*value) && node.val.below(*value) {
                    T::below_transitive(*value, node.val, *value);
                }
                if link_shape(node.right).contains(*value) && value.below(node.val) {
                    T::below_transitive(*value, node.val, *value);
                }
            }
            None
        }
    }

    /// The tree as a graph: a head for every node, in level order, with
    /// the keys of the node's children as its successors, the left child
    /// first. `None` for the empty tree.
    pub fn adjacency_list(&self) -> (res: Option<AdjacencyList<T>>)
        requires
            self.wf(),
        ensures
            self@ is Empty ==> res is None,
            self@ is Fork ==> res is Some && res->0.wf() && res->0@ == self@.level_order(),
    {
        if self.root.is_none() {
            return None;
        }
        let mut dequeue: VecDeque<&Box<Node<T>>> = VecDeque::new();
        dequeue.push_back(self.root.as_ref().unwrap());

        let mut adj_list = AdjacencyList::new();
        let ghost depth = self@.height();
        proof {
            assert(queued_shapes(dequeue@) =~= seq![self@]);
            lemma_forest_single(self@, depth);
            assert(adj_list@ + forest_levels_above(queued_shapes(dequeue@), depth)
                =~= self@.level_order());
        }
        while dequeue.len() > 0
            invariant
                adj_list.wf(),
                queue_fits(adj_list@, queued_shapes(dequeue@), depth),
                adj_list@ + forest_levels_above(queued_shapes(dequeue@), depth)
                    == self@.level_order(),
            decreases forest_size(queued_shapes(dequeue@)),
        {
            let ghost rows = adj_list@;
            let ghost queue = queued_shapes(dequeue@);
            let cur_node = dequeue.pop_front().unwrap();
            let cur_node_val = &cur_node.val;
            proof {
                assert(queue[0] == cur_node@);
                lemma_queue_step(rows, queue, depth);
                lemma_walk_step(queue, depth);
                assert(queued_shapes(dequeue@) =~= queue.drop_first());
            }
            adj_list.add_head(*cur_node_val).unwrap();
            let ghost bare = adj_list@;
            proof {
                adj_list.lemma_heads_distinct();
                assert(bare[rows.len() as int].0 == *cur_node_val);
            }
            if let Some(left_node) = &cur_node.left {
                dequeue.push_back(left_node);
                adj_list.append_to_head(*cur_node_val, left_node.val).unwrap();
            }
            let ghost half = adj_list@;
            proof {
                adj_list.lemma_heads_distinct();
                assert(half[rows.len() as int].0 == *cur_node_val);
                assert(half =~= rows.push((*cur_node_val, link_shape(cur_node.left).root_key())));
                assert(queued_shapes(dequeue@) =~= queue.drop_first() + (if link_shape(
                    cur_node.left,
                ) is Fork {
                    seq![link_shape(cur_node.left)]
                } else {
                    Seq::empty()
                }));
            }
            if let Some(right_node) = &cur_node.right {
                dequeue.push_back(right_node);
                adj_list.append_to_head(*cur_node_val, right_node.val).unwrap();
            }
            proof {
                let left_key = link_shape(cur_node.left).root_key();
                let right_key = link_shape(cur_node.right).root_key();
                let last = rows.len() as int;
                assert(half[last] == (*cur_node_val, left_key));
                assert forall|r: int| 0 <= r < last implies rows[r].0 != *cur_node_val by {
                    assert(half[r] == rows[r]);
                }
                if cur_node.right is Some {
                    assert(adj_list@ == with_successor(half, *cur_node_val, right_key[0]));
                    assert(left_key.push(right_key[0]) =~= left_key + right_key);
                } else {
                    assert(left_key =~= left_key + right_key);
                }
                assert(adj_list@[last] == (*cur_node_val, left_key + right_key));
                assert(cur_node@.root_row() =~= seq![(*cur_node_val, left_key + right_key)]);
                assert(adj_list@ =~= rows + cur_node@.root_row());
                assert(queued_shapes(dequeue@) =~= queue.drop_first() + children(cur_node@));
                assert(rows + (cur_node@.root_row() + forest_levels_above(
                    queued_shapes(dequeue@),
                    depth,
                )) =~= (rows + cur_node@.root_row()) + forest_levels_above(
                    queued_shapes(dequeue@),
                    depth,
                ));
            }
        }
        proof {
            assert(queued_shapes(dequeue@) =~= Seq::<Shape<T>>::empty());
            lemma_forest_empty::<T>(depth);
            assert(adj_list@ + Seq::<Row<T>>::empty() =~= adj_list@);
        }
        Some(adj_list)
    }

    /// A route through the tree's adjacency list: for every head in
    /// turn, the head's label unless the route has it already, then the
    /// labels of its successors, the one appended last first. The empty
    /// tree gives the empty string.
    pub fn topology_sort(&self) -> (text: String)
        requires
            self.wf(),
        ensures
            text@ == route_text(emission(self@.level_order())),
    {
        let mut route_builder = RouteBuilder::with_arrow();
        if let Some(adj_list) = self.adjacency_list() {
            let mut i: usize = 0;
            while i < adj_list.len()
                invariant
                    adj_list.wf(),
                    i <= adj_list@.len(),
                    route_builder@ == emission(adj_list@.take(i as int)),
                decreases adj_list@.len() - i,
            {
                let (head, mut list) = adj_list.row(i);
                let label = head.label();
                if !route_builder.contains(&label) {
                    route_builder.push(label);
                }
                drain_labels(&mut list, &mut route_builder);
                proof {
                    let done = adj_list@.take(i as int + 1);
                    assert(done.drop_last() =~= adj_list@.take(i as int));
                    assert(done.last() == adj_list@[i as int]);
                    assert(route_builder@ == emit_row(
                        emission(adj_list@.take(i as int)),
                        adj_list@[i as int],
                    ));
                }
                i += 1;
            }
            proof {
                assert(adj_list@.take(adj_list@.len() as int) =~= adj_list@);
            }
        } else {
            assert(self@.level_order() =~= Seq::<Row<T>>::empty());
        }
        route_builder.build()
    }
}

} // verus!
