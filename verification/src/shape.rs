//! The shape of a binary sort tree: the mathematical tree that the
//! contracts of the executable tree speak of.

use crate::adjacency_list::Row;
use crate::key::Key;
use vstd::prelude::*;

verus! {

/// A binary tree of keys. Every node carries, beside its key, the identity
/// it was given when it was made.
pub enum Shape<T> {
    /// The tree without nodes.
    Empty,
    /// A node with its two subtrees.
    Fork { left: Box<Shape<T>>, key: T, id: usize, right: Box<Shape<T>> },
}

/// The larger of two numbers.
pub open spec fn larger(a: nat, b: nat) -> nat {
    if a >= b {
        a
    } else {
        b
    }
}

impl<T> Shape<T> {
    /// The tree of one node.
    pub open spec fn single(key: T, id: usize) -> Shape<T> {
        Shape::Fork { left: Box::new(Shape::Empty), key, id, right: Box::new(Shape::Empty) }
    }

    /// Number of nodes.
    pub open spec fn size(self) -> nat
        decreases self,
    {
        match self {
            Shape::Empty => 0,
            Shape::Fork { left, right, .. } => 1 + left.size() + right.size(),
        }
    }

    /// Number of nodes on the longest path from the root down: 0 for the
    /// empty tree, 1 for a single node.
    pub open spec fn height(self) -> nat
        decreases self,
    {
        match self {
            Shape::Empty => 0,
            Shape::Fork { left, right, .. } => 1 + larger(left.height(), right.height()),
        }
    }

    /// Whether some node has the key `k`.
    pub open spec fn contains(self, k: T) -> bool
        decreases self,
    {
        match self {
            Shape::Empty => false,
            Shape::Fork { left, key, right, .. } => key == k || left.contains(k) || right.contains(
                k,
            ),
        }
    }

    /// The keys in the order left subtree, node, right subtree.
    pub open spec fn inorder(self) -> Seq<T>
        decreases self,
    {
        match self {
            Shape::Empty => Seq::empty(),
            Shape::Fork { left, key, right, .. } => left.inorder().push(key) + right.inorder(),
        }
    }

    /// Whether the node with key `k` has no children. False where no node
    /// has that key.
    pub open spec fn is_leaf_key(self, k: T) -> bool
        decreases self,
    {
        match self {
            Shape::Empty => false,
            Shape::Fork { left, key, right, .. } => {
                ||| key == k && *left is Empty && *right is Empty
                ||| left.is_leaf_key(k)
                ||| right.is_leaf_key(k)
            },
        }
    }

    /// The keys of the nodes without children, those of the left subtree
    /// before those of the right one.
    pub open spec fn leaves(self) -> Seq<T>
        decreases self,
    {
        match self {
            Shape::Empty => Seq::empty(),
            Shape::Fork { left, key, right, .. } => if *left is Empty && *right is Empty {
                seq![key]
            } else {
                left.leaves() + right.leaves()
            },
        }
    }

    /// Number of nodes without children.
    pub open spec fn leaf_count(self) -> nat
        decreases self,
    {
        match self {
            Shape::Empty => 0,
            Shape::Fork { left, right, .. } => if *left is Empty && *right is Empty {
                1
            } else {
                left.leaf_count() + right.leaf_count()
            },
        }
    }

    /// Whether the tree has `levels` levels and every one of them is full:
    /// each node above the last level has two children.
    pub open spec fn perfect(self, levels: nat) -> bool
        decreases self,
    {
        match self {
            Shape::Empty => levels == 0,
            Shape::Fork { left, right, .. } => levels > 0 && left.perfect((levels - 1) as nat)
                && right.perfect((levels - 1) as nat),
        }
    }

    /// Whether some node has the identity `i`.
    pub open spec fn has_id(self, i: usize) -> bool
        decreases self,
    {
        match self {
            Shape::Empty => false,
            Shape::Fork { left, id, right, .. } => id == i || left.has_id(i) || right.has_id(i),
        }
    }

    /// No two nodes have the same identity.
    pub open spec fn ids_distinct(self) -> bool
        decreases self,
    {
        match self {
            Shape::Empty => true,
            Shape::Fork { left, id, right, .. } => {
                &&& left.ids_distinct()
                &&& right.ids_distinct()
                &&& !left.has_id(id)
                &&& !right.has_id(id)
                &&& forall|i: usize| !(#[trigger] left.has_id(i) && #[trigger] right.has_id(i))
            },
        }
    }

    /// Every identity in the tree is less than `bound`.
    pub open spec fn ids_below(self, bound: nat) -> bool {
        forall|i: usize| #[trigger] self.has_id(i) ==> i < bound
    }

    /// The identity of the node that holds `k`; `None` where no node does.
    pub open spec fn identity_of(self, k: T) -> Option<usize>
        decreases self,
    {
        match self {
            Shape::Empty => None,
            Shape::Fork { left, key, id, right } => if key == k {
                Some(id)
            } else if left.contains(k) {
                left.identity_of(k)
            } else {
                right.identity_of(k)
            },
        }
    }

    /// The key at the root, as a sequence: empty for the empty tree.
    pub open spec fn root_key(self) -> Seq<T> {
        match self {
            Shape::Empty => Seq::empty(),
            Shape::Fork { key, .. } => seq![key],
        }
    }

    /// The row of the root in an adjacency list: its key, and the keys of
    /// its children, the left one first. Empty for the empty tree.
    pub open spec fn root_row(self) -> Seq<Row<T>> {
        match self {
            Shape::Empty => Seq::empty(),
            Shape::Fork { left, key, right, .. } => seq![
                (key, left.root_key() + right.root_key()),
            ],
        }
    }

    /// The rows of the nodes that lie `depth` steps below the root, from
    /// left to right.
    pub open spec fn level(self, depth: nat) -> Seq<Row<T>>
        decreases depth, self,
    {
        match self {
            Shape::Empty => Seq::empty(),
            Shape::Fork { left, right, .. } => if depth == 0 {
                self.root_row()
            } else {
                left.level((depth - 1) as nat) + right.level((depth - 1) as nat)
            },
        }
    }

    /// The rows of the first `depth` levels, level after level.
    pub open spec fn levels_above(self, depth: nat) -> Seq<Row<T>>
        decreases depth,
    {
        if depth == 0 {
            Seq::empty()
        } else {
            self.levels_above((depth - 1) as nat) + self.level((depth - 1) as nat)
        }
    }

    /// The rows of all nodes in level order: the root, then its children,
    /// then theirs, each level from left to right.
    pub open spec fn level_order(self) -> Seq<Row<T>> {
        self.levels_above(self.height())
    }
}

/// Every key of `s` is below the keys that come after it.
pub open spec fn strictly_increasing<T: Key>(s: Seq<T>) -> bool {
    forall|i: int, j: int| 0 <= i < j < s.len() ==> (#[trigger] s[i]).below(#[trigger] s[j])
}

/// The tree that grows from the empty tree when the keys of `keys` are
/// inserted one after another, the node of the key at position `i`
/// getting the identity `i`.
pub open spec fn planted<T: Key>(keys: Seq<T>) -> Shape<T>
    decreases keys.len(),
{
    if keys.len() == 0 {
        Shape::Empty
    } else {
        planted(keys.drop_last()).insert(keys.last(), (keys.len() - 1) as usize)
    }
}

impl<T: Key> Shape<T> {
    /// The search-tree order: in every node, the keys of the left subtree
    /// are below the node's key and those of the right subtree above it.
    pub open spec fn ordered(self) -> bool
        decreases self,
    {
        match self {
            Shape::Empty => true,
            Shape::Fork { left, key, right, .. } => {
                &&& left.ordered()
                &&& right.ordered()
                &&& forall|k: T| #[trigger] left.contains(k) ==> k.below(key)
                &&& forall|k: T| #[trigger] right.contains(k) ==> key.below(k)
            },
        }
    }

    /// The tree after `k` has been inserted in a new node with identity
    /// `fresh`: the node hangs where the search for `k` leaves the tree. A
    /// tree that already has `k` stays as it is.
    pub open spec fn insert(self, k: T, fresh: usize) -> Shape<T>
        decreases self,
    {
        match self {
            Shape::Empty => Shape::single(k, fresh),
            Shape::Fork { left, key, id, right } => if k == key {
                self
            } else if key.below(k) {
                Shape::Fork { left, key, id, right: Box::new(right.insert(k, fresh)) }
            } else {
                Shape::Fork { left: Box::new(left.insert(k, fresh)), key, id, right }
            },
        }
    }

    /// The key of the rightmost node: the largest key of an ordered tree.
    pub open spec fn max_key(self) -> T
        recommends
            self is Fork,
        decreases self,
    {
        match self {
            Shape::Empty => arbitrary(),
            Shape::Fork { key, right, .. } => if *right is Empty {
                key
            } else {
                right.max_key()
            },
        }
    }

    /// The tree without its rightmost node, whose left subtree takes its
    /// place.
    pub open spec fn without_max(self) -> Shape<T>
        decreases self,
    {
        match self {
            Shape::Empty => Shape::Empty,
            Shape::Fork { left, key, id, right } => if *right is Empty {
                *left
            } else {
                Shape::Fork { left, key, id, right: Box::new(right.without_max()) }
            },
        }
    }

    /// The tree after the key `k` has been removed. A node without children
    /// disappears; a node with one child is replaced by that child; a node
    /// with two children takes the largest key of its left subtree, and the
    /// node that held that key is removed instead. A tree that does not
    /// have `k` stays as it is.
    pub open spec fn remove(self, k: T) -> Shape<T>
        decreases self,
    {
        match self {
            Shape::Empty => Shape::Empty,
            Shape::Fork { left, key, id, right } => if k.below(key) {
                Shape::Fork { left: Box::new(left.remove(k)), key, id, right }
            } else if key.below(k) {
                Shape::Fork { left, key, id, right: Box::new(right.remove(k)) }
            } else if *left is Empty {
                *right
            } else if *right is Empty {
                *left
            } else {
                Shape::Fork { left: Box::new(left.without_max()), key: left.max_key(), id, right }
            },
        }
    }
}

} // verus!
