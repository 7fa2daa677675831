//! Forests: sequences of trees side by side, as a breadth-first walk holds
//! them in its queue, and what links such a walk to the levels of a tree.

use crate::adjacency_list::{has_head, Row};
use crate::key::Key;
use crate::shape::Shape;
use vstd::prelude::*;

verus! {

/// The subtrees that hang at the root of `t`, the left one first.
pub open spec fn children<T>(t: Shape<T>) -> Seq<Shape<T>> {
    match t {
        Shape::Empty => Seq::empty(),
        Shape::Fork { left, right, .. } => {
            let l = if *left is Fork {
                seq![*left]
            } else {
                Seq::empty()
            };
            let r = if *right is Fork {
                seq![*right]
            } else {
                Seq::empty()
            };
            l + r
        },
    }
}

/// Number of nodes in all trees of the forest.
pub open spec fn forest_size<T>(f: Seq<Shape<T>>) -> nat
    decreases f.len(),
{
    if f.len() == 0 {
        0
    } else {
        forest_size(f.drop_last()) + f.last().size()
    }
}

/// The rows that lie `depth` steps below the roots of the forest, tree
/// after tree.
pub open spec fn forest_level<T>(f: Seq<Shape<T>>, depth: nat) -> Seq<Row<T>>
    decreases f.len(),
{
    if f.len() == 0 {
        Seq::empty()
    } else {
        forest_level(f.drop_last(), depth) + f.last().level(depth)
    }
}

/// The rows of the first `depth` levels of the forest, level after level.
pub open spec fn forest_levels_above<T>(f: Seq<Shape<T>>, depth: nat) -> Seq<Row<T>>
    decreases depth,
{
    if depth == 0 {
        Seq::empty()
    } else {
        forest_levels_above(f, (depth - 1) as nat) + forest_level(f, (depth - 1) as nat)
    }
}

/// Size and levels of two forests side by side are those of the first,
/// then those of the second.
pub proof fn lemma_forest_concat<T>(a: Seq<Shape<T>>, b: Seq<Shape<T>>, depth: nat)
    ensures
        forest_size(a + b) == forest_size(a) + forest_size(b),
        forest_level(a + b, depth) == forest_level(a, depth) + forest_level(b, depth),
    decreases b.len(),
{
    if b.len() == 0 {
        assert(a + b =~= a);
    } else {
        assert((a + b).drop_last() =~= a + b.drop_last());
        assert((a + b).last() == b.last());
        lemma_forest_concat(a, b.drop_last(), depth);
        assert(forest_level(a + b, depth) =~= forest_level(a, depth) + forest_level(b, depth));
    }
}

/// A forest of one tree has the size and the levels of that tree.
pub proof fn lemma_forest_single<T>(t: Shape<T>, depth: nat)
    ensures
        forest_size(seq![t]) == t.size(),
        forest_level(seq![t], depth) == t.level(depth),
        forest_levels_above(seq![t], depth) == t.levels_above(depth),
    decreases depth,
{
    reveal_with_fuel(forest_size, 2);
    reveal_with_fuel(forest_level, 2);
    let f = seq![t];
    assert(f.drop_last() =~= Seq::<Shape<T>>::empty());
    assert(f.last() == t);
    assert(forest_level(f, depth) =~= t.level(depth));
    if depth > 0 {
        let d = (depth - 1) as nat;
        lemma_forest_single(t, d);
        assert(forest_level(f, d) =~= t.level(d));
    }
}

/// The empty forest has no rows.
pub proof fn lemma_forest_empty<T>(depth: nat)
    ensures
        forest_levels_above(Seq::<Shape<T>>::empty(), depth) == Seq::<Row<T>>::empty(),
    decreases depth,
{
    if depth > 0 {
        lemma_forest_empty::<T>((depth - 1) as nat);
    }
}

/// A tree has no rows at or below the depth that equals its height.
pub proof fn lemma_level_beyond_height<T>(t: Shape<T>, depth: nat)
    requires
        depth >= t.height(),
    ensures
        t.level(depth) == Seq::<Row<T>>::empty(),
    decreases t,
{
    match t {
        Shape::Empty => {},
        Shape::Fork { left, right, .. } => {
            lemma_level_beyond_height(*left, (depth - 1) as nat);
            lemma_level_beyond_height(*right, (depth - 1) as nat);
        },
    }
}

/// The children of a node hold one node less than the node's tree, and
/// their level `depth` is the tree's level `depth + 1`.
pub proof fn lemma_children<T>(t: Shape<T>, depth: nat)
    requires
        t is Fork,
    ensures
        forest_size(children(t)) + 1 == t.size(),
        forest_level(children(t), depth) == t.level(depth + 1),
{
    let left = *t->left;
    let right = *t->right;
    let l = if left is Fork {
        seq![left]
    } else {
        Seq::empty()
    };
    let r = if right is Fork {
        seq![right]
    } else {
        Seq::empty()
    };
    lemma_forest_concat(l, r, depth);
    lemma_forest_single(left, depth);
    lemma_forest_single(right, depth);
    assert(forest_level(l, depth) =~= left.level(depth));
    assert(forest_level(r, depth) =~= right.level(depth));
    assert(forest_size(l) == left.size());
    assert(forest_size(r) == right.size());
}

/// One step of a breadth-first walk, with the levels of the queue
/// written out: the row of the first tree, then the levels of the queue
/// that the step leaves, are the levels of the queue before the step,
/// then what the first tree has at depth `depth`.
proof fn lemma_shift<T>(q: Seq<Shape<T>>, depth: nat)
    requires
        q.len() > 0,
        q[0] is Fork,
    ensures
        q[0].root_row() + forest_levels_above(q.drop_first() + children(q[0]), depth)
            == forest_levels_above(q, depth) + q[0].level(depth),
    decreases depth,
{
    let head = q[0];
    let rest = q.drop_first();
    let next = rest + children(head);
    if depth == 0 {
        assert(head.root_row() + forest_levels_above(next, 0) =~= forest_levels_above(q, 0)
            + head.level(0));
    } else {
        let d = (depth - 1) as nat;
        lemma_shift(q, d);
        lemma_forest_concat(rest, children(head), d);
        lemma_children(head, d);
        assert(q =~= seq![head] + rest);
        lemma_forest_concat(seq![head], rest, d);
        lemma_forest_single(head, d);
        // next at level d: the rest at level d, then the head at level d + 1
        assert(forest_level(next, d) == forest_level(rest, d) + head.level(depth));
        assert(forest_level(q, d) == head.level(d) + forest_level(rest, d));
        let row = head.root_row();
        let next_above = forest_levels_above(next, d);
        let q_above = forest_levels_above(q, d);
        let rest_d = forest_level(rest, d);
        let head_d = head.level(d);
        let head_below = head.level(depth);
        assert(row + next_above == q_above + head_d);
        assert(forest_levels_above(next, depth) == next_above + (rest_d + head_below));
        assert(forest_levels_above(q, depth) == q_above + (head_d + rest_d));
        assert(row + (next_above + (rest_d + head_below)) =~= (row + next_above) + rest_d
            + head_below);
        assert((q_above + head_d) + rest_d + head_below =~= (q_above + (head_d + rest_d))
            + head_below);
    }
}

/// One step of a breadth-first walk: taking the first tree off the queue,
/// writing its row and queueing its children leaves a queue whose levels
/// are the rest of the levels of the queue before.
pub proof fn lemma_walk_step<T>(q: Seq<Shape<T>>, depth: nat)
    requires
        q.len() > 0,
        q[0] is Fork,
        q[0].height() <= depth,
    ensures
        forest_levels_above(q, depth) == q[0].root_row() + forest_levels_above(
            q.drop_first() + children(q[0]),
            depth,
        ),
        forest_size(q.drop_first() + children(q[0])) + 1 == forest_size(q),
{
    lemma_shift(q, depth);
    lemma_level_beyond_height(q[0], depth);
    assert(forest_levels_above(q, depth) + q[0].level(depth) =~= forest_levels_above(q, depth));
    lemma_forest_concat(q.drop_first(), children(q[0]), depth);
    lemma_children(q[0], depth);
    assert(q =~= seq![q[0]] + q.drop_first());
    lemma_forest_concat(seq![q[0]], q.drop_first(), depth);
    lemma_forest_single(q[0], depth);
}

/// What a breadth-first walk of an ordered tree keeps true of the rows it
/// has written and the trees in its queue: the queued trees are ordered,
/// not empty and at most `depth` high, no key is in two of them, and no
/// head of a written row is in any of them.
pub open spec fn queue_fits<T: Key>(rows: Seq<Row<T>>, q: Seq<Shape<T>>, depth: nat) -> bool {
    &&& forall|i: int|
        0 <= i < q.len() ==> (#[trigger] q[i]) is Fork && q[i].ordered() && q[i].height() <= depth
    &&& forall|i: int, j: int, k: T|
        0 <= i < j < q.len() && #[trigger] q[i].contains(k) ==> !(#[trigger] q[j].contains(k))
    &&& forall|r: int, i: int|
        0 <= r < rows.len() && 0 <= i < q.len() ==> !(#[trigger] q[i]).contains(
            (#[trigger] rows[r]).0,
        )
}

/// A step of the walk keeps `queue_fits`, and the key of the tree that it
/// takes off the queue is not yet a head.
pub proof fn lemma_queue_step<T: Key>(rows: Seq<Row<T>>, q: Seq<Shape<T>>, depth: nat)
    requires
        queue_fits(rows, q, depth),
        q.len() > 0,
    ensures
        !has_head(rows, q[0]->key),
        queue_fits(rows + q[0].root_row(), q.drop_first() + children(q[0]), depth),
{
    let head = q[0];
    let key = head->key;
    let left = *head->left;
    let right = *head->right;
    let rest = q.drop_first();
    let kids = children(head);
    let next = rest + kids;
    let rows2 = rows + head.root_row();
    assert(head.contains(key));
    assert forall|i: int| 0 <= i < next.len() implies (#[trigger] next[i]) is Fork
        && next[i].ordered() && next[i].height() <= depth by {
        if i < rest.len() {
            assert(next[i] == q[i + 1]);
        }
    }
    // every tree of the new queue lies in a tree of the old one
    assert forall|i: int, k: T| 0 <= i < next.len() && #[trigger] next[i].contains(k) implies (if i
        < rest.len() {
        q[i + 1].contains(k)
    } else {
        head.contains(k) && k != key
    }) by {
        if i < rest.len() {
            assert(next[i] == q[i + 1]);
        } else {
            T::below_irreflexive(k);
        }
    }
    assert forall|i: int, j: int, k: T|
        0 <= i < j < next.len() && #[trigger] next[i].contains(k) implies !(
    #[trigger] next[j].contains(k)) by {
        if next[j].contains(k) {
            if j < rest.len() {
                assert(q[i + 1].contains(k) && q[j + 1].contains(k));
            } else if i < rest.len() {
                assert(q[0].contains(k) && q[i + 1].contains(k));
            } else {
                // the two children of the head
                assert(kids.len() == 2);
                assert(next[i] == left && next[j] == right);
                T::below_transitive(k, key, k);
                T::below_irreflexive(k);
            }
        }
    }
    assert forall|r: int, i: int| 0 <= r < rows2.len() && 0 <= i < next.len() implies !(
    #[trigger] next[i]).contains((#[trigger] rows2[r]).0) by {
        let k = rows2[r].0;
        if next[i].contains(k) {
            if r < rows.len() {
                assert(rows2[r] == rows[r]);
                if i < rest.len() {
                    assert(q[i + 1].contains(k));
                } else {
                    assert(q[0].contains(k));
                }
            } else {
                assert(k == key);
                if i < rest.len() {
                    assert(q[0].contains(k) && q[i + 1].contains(k));
                }
            }
        }
    }
    if has_head(rows, key) {
        let r = choose|r: int| 0 <= r < rows.len() && (#[trigger] rows[r]).0 == key;
        assert(!q[0].contains(rows[r].0));
    }
}

} // verus!
