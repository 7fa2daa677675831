//! What holds of tree shapes: facts about insertion, removal and the
//! traversals, proved once for every tree.

use crate::key::Key;
use crate::shape::{planted, strictly_increasing, Shape};
use vstd::prelude::*;

verus! {

/// After an insertion the tree has the keys it had, and the inserted one.
pub proof fn lemma_insert_contains<T: Key>(t: Shape<T>, k: T, fresh: usize, j: T)
    ensures
        t.insert(k, fresh).contains(j) <==> (t.contains(j) || j == k),
    decreases t,
{
    match t {
        Shape::Empty => {},
        Shape::Fork { left, key, id, right } => {
            if k == key {
            } else if key.below(k) {
                lemma_insert_contains(*right, k, fresh, j);
            } else {
                lemma_insert_contains(*left, k, fresh, j);
            }
        },
    }
}

/// Insertion keeps the search-tree order.
pub proof fn lemma_insert_ordered<T: Key>(t: Shape<T>, k: T, fresh: usize)
    requires
        t.ordered(),
    ensures
        t.insert(k, fresh).ordered(),
    decreases t,
{
    match t {
        Shape::Empty => {},
        Shape::Fork { left, key, id, right } => {
            if k == key {
            } else if key.below(k) {
                lemma_insert_ordered(*right, k, fresh);
                assert forall|j: T| #[trigger] right.insert(k, fresh).contains(j) implies key.below(
                    j,
                ) by {
                    lemma_insert_contains(*right, k, fresh, j);
                }
            } else {
                T::below_connected(k, key);
                lemma_insert_ordered(*left, k, fresh);
                assert forall|j: T| #[trigger] left.insert(k, fresh).contains(j) implies j.below(
                    key,
                ) by {
                    lemma_insert_contains(*left, k, fresh, j);
                }
            }
        },
    }
}

/// Inserting a key that an ordered tree already has changes nothing.
pub proof fn lemma_insert_present<T: Key>(t: Shape<T>, k: T, fresh: usize)
    requires
        t.ordered(),
        t.contains(k),
    ensures
        t.insert(k, fresh) == t,
    decreases t,
{
    match t {
        Shape::Empty => {},
        Shape::Fork { left, key, id, right } => {
            if k == key {
            } else if key.below(k) {
                if left.contains(k) {
                    T::below_transitive(k, key, k);
                    T::below_irreflexive(k);
                }
                lemma_insert_present(*right, k, fresh);
            } else {
                T::below_connected(k, key);
                if right.contains(k) {
                    T::below_transitive(k, key, k);
                    T::below_irreflexive(k);
                }
                lemma_insert_present(*left, k, fresh);
            }
        },
    }
}

/// Inserting a key that the tree does not have adds one node, and that
/// node has the fresh identity.
pub proof fn lemma_insert_absent<T: Key>(t: Shape<T>, k: T, fresh: usize)
    requires
        !t.contains(k),
    ensures
        t.insert(k, fresh).size() == t.size() + 1,
        forall|i: usize| #[trigger] t.insert(k, fresh).has_id(i) <==> (t.has_id(i) || i == fresh),
        t.ids_distinct() && !t.has_id(fresh) ==> t.insert(k, fresh).ids_distinct(),
        t.insert(k, fresh).identity_of(k) == Some(fresh),
    decreases t,
{
    let grown = t.insert(k, fresh);
    match t {
        Shape::Empty => {
            assert forall|i: usize| #[trigger] grown.has_id(i) <==> (t.has_id(i) || i == fresh) by {
                reveal_with_fuel(Shape::has_id, 2);
            }
        },
        Shape::Fork { left, key, id, right } => {
            if key.below(k) {
                lemma_insert_absent(*right, k, fresh);
                lemma_insert_contains(*right, k, fresh, k);
                assert forall|i: usize| #[trigger] grown.has_id(i) <==> (t.has_id(i) || i == fresh) by {
                    assert(grown.has_id(i) == (id == i || left.has_id(i) || right.insert(
                        k,
                        fresh,
                    ).has_id(i)));
                }
            } else {
                lemma_insert_absent(*left, k, fresh);
                lemma_insert_contains(*left, k, fresh, k);
                assert forall|i: usize| #[trigger] grown.has_id(i) <==> (t.has_id(i) || i == fresh) by {
                    assert(grown.has_id(i) == (id == i || left.insert(k, fresh).has_id(i)
                        || right.has_id(i)));
                }
            }
        },
    }
}

/// The rightmost key of an ordered tree is in the tree, and every other
/// key of the tree is below it.
pub proof fn lemma_max_key<T: Key>(t: Shape<T>)
    requires
        t is Fork,
        t.ordered(),
    ensures
        t.contains(t.max_key()),
        forall|j: T| #[trigger] t.contains(j) ==> j == t.max_key() || j.below(t.max_key()),
    decreases t,
{
    match t {
        Shape::Empty => {},
        Shape::Fork { left, key, id, right } => {
            if *right is Empty {
                assert forall|j: T| #[trigger] t.contains(j) implies j == key || j.below(key) by {
                    assert(t.contains(j) == (key == j || left.contains(j) || right.contains(j)));
                    assert(!right.contains(j));
                }
            } else {
                lemma_max_key(*right);
                let top = right.max_key();
                assert(right.contains(top));
                assert forall|j: T| #[trigger] t.contains(j) implies j == top || j.below(top) by {
                    assert(t.contains(j) == (key == j || left.contains(j) || right.contains(j)));
                    if j == key {
                    } else if left.contains(j) {
                        T::below_transitive(j, key, top);
                    }
                }
            }
        },
    }
}

/// Taking the rightmost node out of an ordered tree removes its key and no
/// other, keeps the order, and keeps the identities of the other nodes.
pub proof fn lemma_without_max<T: Key>(t: Shape<T>)
    requires
        t is Fork,
        t.ordered(),
    ensures
        t.without_max().ordered(),
        forall|j: T| #[trigger] t.without_max().contains(j) <==> (t.contains(j) && j != t.max_key()),
        t.without_max().size() + 1 == t.size(),
        forall|i: usize| #[trigger] t.without_max().has_id(i) ==> t.has_id(i),
        t.ids_distinct() ==> t.without_max().ids_distinct(),
    decreases t,
{
    let rest = t.without_max();
    match t {
        Shape::Empty => {},
        Shape::Fork { left, key, id, right } => {
            if *right is Empty {
                assert forall|j: T| #[trigger] rest.contains(j) <==> (t.contains(j) && j != key) by {
                    reveal_with_fuel(Shape::contains, 2);
                    if left.contains(j) {
                        T::below_irreflexive(j);
                    }
                }
            } else {
                lemma_without_max(*right);
                lemma_max_key(*right);
                let top = right.max_key();
                assert forall|j: T| #[trigger] rest.contains(j) <==> (t.contains(j) && j != top) by {
                    assert(rest.contains(j) == (key == j || left.contains(j)
                        || right.without_max().contains(j)));
                    if j == top {
                        if key == j {
                            T::below_irreflexive(j);
                        }
                        if left.contains(j) {
                            T::below_transitive(j, key, j);
                            T::below_irreflexive(j);
                        }
                    }
                }
                assert forall|i: usize| #[trigger] rest.has_id(i) implies t.has_id(i) by {
                    assert(rest.has_id(i) == (id == i || left.has_id(i)
                        || right.without_max().has_id(i)));
                }
            }
        },
    }
}

/// After a removal from an ordered tree, the tree has the keys it had
/// but for the removed one.
pub proof fn lemma_remove_contains<T: Key>(t: Shape<T>, k: T)
    requires
        t.ordered(),
    ensures
        forall|j: T| #[trigger] t.remove(k).contains(j) <==> (t.contains(j) && j != k),
    decreases t,
{
    let rest = t.remove(k);
    match t {
        Shape::Empty => {},
        Shape::Fork { left, key, id, right } => {
            if k.below(key) {
                lemma_remove_contains(*left, k);
                assert forall|j: T| #[trigger] rest.contains(j) <==> (t.contains(j) && j != k) by {
                    assert(rest.contains(j) == (key == j || left.remove(k).contains(j)
                        || right.contains(j)));
                    if j == k {
                        T::below_irreflexive(k);
                        if right.contains(j) {
                            T::below_transitive(k, key, k);
                        }
                    }
                }
            } else if key.below(k) {
                lemma_remove_contains(*right, k);
                assert forall|j: T| #[trigger] rest.contains(j) <==> (t.contains(j) && j != k) by {
                    assert(rest.contains(j) == (key == j || left.contains(j) || right.remove(
                        k,
                    ).contains(j)));
                    if j == k {
                        T::below_irreflexive(k);
                        if left.contains(j) {
                            T::below_transitive(k, key, k);
                        }
                    }
                }
            } else {
                T::below_connected(k, key);
                assert forall|j: T| #[trigger] rest.contains(j) <==> (t.contains(j) && j != k) by {
                    if left.contains(j) || right.contains(j) {
                        T::below_irreflexive(j);
                    }
                    if !(*left is Empty) && !(*right is Empty) {
                        lemma_without_max(*left);
                        lemma_max_key(*left);
                        assert(rest.contains(j) == (left.max_key() == j || left.without_max().contains(
                            j,
                        ) || right.contains(j)));
                    }
                }
            }
        },
    }
}

/// Removal keeps the search-tree order.
pub proof fn lemma_remove_ordered<T: Key>(t: Shape<T>, k: T)
    requires
        t.ordered(),
    ensures
        t.remove(k).ordered(),
    decreases t,
{
    match t {
        Shape::Empty => {},
        Shape::Fork { left, key, id, right } => {
            if k.below(key) {
                lemma_remove_ordered(*left, k);
                lemma_remove_contains(*left, k);
            } else if key.below(k) {
                lemma_remove_ordered(*right, k);
                lemma_remove_contains(*right, k);
            } else if !(*left is Empty) && !(*right is Empty) {
                lemma_without_max(*left);
                lemma_max_key(*left);
                let top = left.max_key();
                assert forall|j: T| #[trigger] right.contains(j) implies top.below(j) by {
                    T::below_transitive(top, key, j);
                }
            }
        },
    }
}

/// Removing a key that an ordered tree does not have changes nothing.
pub proof fn lemma_remove_absent<T: Key>(t: Shape<T>, k: T)
    requires
        t.ordered(),
        !t.contains(k),
    ensures
        t.remove(k) == t,
    decreases t,
{
    match t {
        Shape::Empty => {},
        Shape::Fork { left, key, id, right } => {
            if k.below(key) {
                lemma_remove_absent(*left, k);
            } else if key.below(k) {
                lemma_remove_absent(*right, k);
            } else {
                T::below_connected(k, key);
            }
        },
    }
}

/// Removing a key that an ordered tree has takes one node away and brings
/// no new identity in.
pub proof fn lemma_remove_present<T: Key>(t: Shape<T>, k: T)
    requires
        t.ordered(),
        t.contains(k),
    ensures
        t.remove(k).size() + 1 == t.size(),
        forall|i: usize| #[trigger] t.remove(k).has_id(i) ==> t.has_id(i),
        t.ids_distinct() ==> t.remove(k).ids_distinct(),
    decreases t,
{
    let rest = t.remove(k);
    match t {
        Shape::Empty => {},
        Shape::Fork { left, key, id, right } => {
            if k.below(key) {
                T::below_irreflexive(k);
                if right.contains(k) {
                    T::below_transitive(k, key, k);
                }
                lemma_remove_present(*left, k);
                assert(rest.size() == 1 + left.remove(k).size() + right.size());
                assert forall|i: usize| #[trigger] rest.has_id(i) implies t.has_id(i) by {
                    assert(rest.has_id(i) == (id == i || left.remove(k).has_id(i) || right.has_id(
                        i,
                    )));
                }
            } else if key.below(k) {
                T::below_irreflexive(k);
                if left.contains(k) {
                    T::below_transitive(k, key, k);
                }
                lemma_remove_present(*right, k);
                assert(rest.size() == 1 + left.size() + right.remove(k).size());
                assert forall|i: usize| #[trigger] rest.has_id(i) implies t.has_id(i) by {
                    assert(rest.has_id(i) == (id == i || left.has_id(i) || right.remove(k).has_id(
                        i,
                    )));
                }
            } else if !(*left is Empty) && !(*right is Empty) {
                lemma_without_max(*left);
                assert(rest.size() == 1 + left.without_max().size() + right.size());
                assert forall|i: usize| #[trigger] rest.has_id(i) implies t.has_id(i) by {
                    assert(rest.has_id(i) == (id == i || left.without_max().has_id(i)
                        || right.has_id(i)));
                }
            } else if *left is Empty {
                assert(left.size() == 0);
                assert(rest == *right);
            } else {
                assert(right.size() == 0);
                assert(rest == *left);
            }
        },
    }
}

/// A tree is no higher than it has nodes.
pub proof fn lemma_height_le_size<T>(t: Shape<T>)
    ensures
        t.height() <= t.size(),
    decreases t,
{
    match t {
        Shape::Empty => {},
        Shape::Fork { left, right, .. } => {
            lemma_height_le_size(*left);
            lemma_height_le_size(*right);
        },
    }
}

/// What the traversals hold is in the tree: a key of the in-order sequence
/// or of the leaves is a key of the tree, and every key of the tree is in
/// the in-order sequence.
pub proof fn lemma_traversals_hold_keys<T>(t: Shape<T>, k: T)
    ensures
        t.inorder().contains(k) <==> t.contains(k),
        t.leaves().contains(k) <==> t.is_leaf_key(k),
        t.is_leaf_key(k) ==> t.contains(k),
    decreases t,
{
    match t {
        Shape::Empty => {},
        Shape::Fork { left, key, right, .. } => {
            lemma_traversals_hold_keys(*left, k);
            lemma_traversals_hold_keys(*right, k);
            let l = left.inorder();
            let r = right.inorder();
            if t.inorder().contains(k) {
                let i = choose|i: int| 0 <= i < t.inorder().len() && t.inorder()[i] == k;
                if i < l.len() {
                    assert(l[i] == k);
                } else if i == l.len() {
                } else {
                    assert(r[i - l.len() - 1] == k);
                }
            }
            if key == k {
                assert(t.inorder()[l.len() as int] == k);
            }
            if left.contains(k) {
                let i = choose|i: int| 0 <= i < l.len() && l[i] == k;
                assert(t.inorder()[i] == k);
            }
            if right.contains(k) {
                let i = choose|i: int| 0 <= i < r.len() && r[i] == k;
                assert(t.inorder()[l.len() + 1 + i] == k);
            }
            let ll = left.leaves();
            let rl = right.leaves();
            if *left is Empty && *right is Empty {
                assert(t.leaves()[0] == key);
                assert(!left.is_leaf_key(k) && !right.is_leaf_key(k));
            } else {
                if t.leaves().contains(k) {
                    let i = choose|i: int| 0 <= i < t.leaves().len() && t.leaves()[i] == k;
                    if i < ll.len() {
                        assert(ll[i] == k);
                    } else {
                        assert(rl[i - ll.len()] == k);
                    }
                }
                if left.is_leaf_key(k) {
                    let i = choose|i: int| 0 <= i < ll.len() && ll[i] == k;
                    assert(t.leaves()[i] == k);
                }
                if right.is_leaf_key(k) {
                    let i = choose|i: int| 0 <= i < rl.len() && rl[i] == k;
                    assert(t.leaves()[ll.len() + i] == k);
                }
            }
        },
    }
}

/// Exactly the keys of the tree have an identity, and it is one of the
/// identities in the tree.
pub proof fn lemma_identity_of_key<T>(t: Shape<T>, k: T)
    ensures
        t.identity_of(k) is Some <==> t.contains(k),
        t.identity_of(k) matches Some(i) ==> t.has_id(i),
    decreases t,
{
    match t {
        Shape::Empty => {},
        Shape::Fork { left, right, .. } => {
            lemma_identity_of_key(*left, k);
            lemma_identity_of_key(*right, k);
        },
    }
}

/// Two increasing sequences one after the other are increasing, where
/// every key of the first is below every key of the second.
pub proof fn lemma_increasing_concat<T: Key>(a: Seq<T>, b: Seq<T>)
    requires
        strictly_increasing(a),
        strictly_increasing(b),
        forall|i: int, j: int| 0 <= i < a.len() && 0 <= j < b.len() ==> (#[trigger] a[i]).below(
            #[trigger] b[j],
        ),
    ensures
        strictly_increasing(a + b),
{
    let s = a + b;
    assert forall|i: int, j: int| 0 <= i < j < s.len() implies (#[trigger] s[i]).below(
        #[trigger] s[j],
    ) by {
        if j < a.len() {
            assert(s[i] == a[i] && s[j] == a[j]);
        } else if i < a.len() {
            assert(s[i] == a[i] && s[j] == b[j - a.len()]);
        } else {
            assert(s[i] == b[i - a.len()] && s[j] == b[j - a.len()]);
        }
    }
}

/// No key occurs twice in an increasing sequence.
pub proof fn lemma_increasing_no_duplicates<T: Key>(s: Seq<T>)
    requires
        strictly_increasing(s),
    ensures
        s.no_duplicates(),
{
    assert forall|i: int, j: int| 0 <= i < s.len() && 0 <= j < s.len() && i != j implies s[i]
        != s[j] by {
        T::below_irreflexive(s[i]);
        if i < j {
            assert(s[i].below(s[j]));
        } else {
            assert(s[j].below(s[i]));
        }
    }
}

/// The search-tree order shows in the traversals: the in-order sequence of
/// an ordered tree is strictly increasing, and so is the sequence of its
/// leaves.
pub proof fn lemma_ordered_traversals<T: Key>(t: Shape<T>)
    requires
        t.ordered(),
    ensures
        strictly_increasing(t.inorder()),
        strictly_increasing(t.leaves()),
    decreases t,
{
    match t {
        Shape::Empty => {},
        Shape::Fork { left, key, right, .. } => {
            lemma_ordered_traversals(*left);
            lemma_ordered_traversals(*right);
            let l = left.inorder();
            let r = right.inorder();
            let lk = l.push(key);
            assert forall|i: int| 0 <= i < l.len() implies (#[trigger] l[i]).below(key) by {
                lemma_traversals_hold_keys(*left, l[i]);
            }
            assert forall|j: int| 0 <= j < r.len() implies key.below(#[trigger] r[j]) by {
                lemma_traversals_hold_keys(*right, r[j]);
            }
            assert(lk =~= l + seq![key]);
            lemma_increasing_concat(l, seq![key]);
            assert forall|i: int, j: int| 0 <= i < lk.len() && 0 <= j < r.len() implies (
            #[trigger] lk[i]).below(#[trigger] r[j]) by {
                if i < l.len() {
                    assert(lk[i] == l[i]);
                    T::below_transitive(l[i], key, r[j]);
                }
            }
            lemma_increasing_concat(lk, r);
            if !(*left is Empty && *right is Empty) {
                let ll = left.leaves();
                let rl = right.leaves();
                assert forall|i: int, j: int|
                    0 <= i < ll.len() && 0 <= j < rl.len() implies (#[trigger] ll[i]).below(
                    #[trigger] rl[j],
                ) by {
                    lemma_traversals_hold_keys(*left, ll[i]);
                    lemma_traversals_hold_keys(*right, rl[j]);
                    T::below_transitive(ll[i], key, rl[j]);
                }
                lemma_increasing_concat(ll, rl);
            }
        },
    }
}

/// The in-order sequence holds every node once, and the sequence of the
/// leaves every node without children once.
pub proof fn lemma_traversal_lengths<T>(t: Shape<T>)
    ensures
        t.inorder().len() == t.size(),
        t.leaves().len() == t.leaf_count(),
    decreases t,
{
    match t {
        Shape::Empty => {},
        Shape::Fork { left, right, .. } => {
            lemma_traversal_lengths(*left);
            lemma_traversal_lengths(*right);
        },
    }
}

/// Whatever distinct keys are inserted into the empty tree, in whatever
/// order: the tree is a search tree that holds exactly these keys, each in
/// a node with an identity of its own, and its in-order sequence lists
/// them in strictly increasing order.
pub proof fn law_inserted_keys_come_out_sorted<T: Key>(keys: Seq<T>)
    requires
        keys.no_duplicates(),
        keys.len() <= usize::MAX,
    ensures
        planted(keys).ordered(),
        planted(keys).ids_distinct(),
        planted(keys).ids_below(keys.len()),
        planted(keys).size() == keys.len(),
        forall|k: T| planted(keys).contains(k) <==> keys.contains(k),
        strictly_increasing(planted(keys).inorder()),
        planted(keys).inorder().len() == keys.len(),
        forall|k: T| planted(keys).inorder().contains(k) <==> keys.contains(k),
    decreases keys.len(),
{
    let t = planted(keys);
    if keys.len() > 0 {
        let before = keys.drop_last();
        let last = keys.last();
        let fresh = (keys.len() - 1) as usize;
        let tb = planted(before);
        law_inserted_keys_come_out_sorted(before);
        assert(!before.contains(last)) by {
            if before.contains(last) {
                let i = choose|i: int| 0 <= i < before.len() && before[i] == last;
                assert(keys[i] == keys[keys.len() - 1]);
            }
        }
        lemma_insert_ordered(tb, last, fresh);
        lemma_insert_absent(tb, last, fresh);
        assert forall|k: T| t.contains(k) <==> keys.contains(k) by {
            lemma_insert_contains(tb, last, fresh, k);
            if before.contains(k) {
                let i = choose|i: int| 0 <= i < before.len() && before[i] == k;
                assert(keys[i] == k);
            }
            if keys.contains(k) && k != last {
                let i = choose|i: int| 0 <= i < keys.len() && keys[i] == k;
                assert(before[i] == k);
            }
        }
    }
    lemma_ordered_traversals(t);
    lemma_traversal_lengths(t);
    assert forall|k: T| t.inorder().contains(k) <==> keys.contains(k) by {
        lemma_traversals_hold_keys(t, k);
    }
}

/// A key that was inserted is in the tree, and it stays there whatever
/// else is inserted or removed, until it is removed itself.
pub proof fn law_key_stays_until_removed<T: Key>(t: Shape<T>, k: T, other: T, fresh: usize)
    requires
        t.ordered(),
    ensures
        t.insert(k, fresh).contains(k),
        t.contains(k) ==> t.insert(other, fresh).contains(k),
        t.contains(k) && other != k ==> t.remove(other).contains(k),
        !t.remove(k).contains(k),
{
    lemma_insert_contains(t, k, fresh, k);
    lemma_insert_contains(t, other, fresh, k);
    lemma_remove_contains(t, other);
    lemma_remove_contains(t, k);
}

/// The height counts levels, not steps: a tree of one node has height 1.
pub proof fn law_single_node_has_height_one<T>(key: T, id: usize)
    ensures
        Shape::single(key, id).height() == 1,
{
    reveal_with_fuel(Shape::height, 2);
}

/// A tree with `levels` full levels has height `levels`.
pub proof fn law_height_counts_levels<T>(t: Shape<T>, levels: nat)
    requires
        t.perfect(levels),
    ensures
        t.height() == levels,
    decreases t,
{
    match t {
        Shape::Empty => {},
        Shape::Fork { left, right, .. } => {
            law_height_counts_levels(*left, (levels - 1) as nat);
            law_height_counts_levels(*right, (levels - 1) as nat);
        },
    }
}

/// The leaves are exactly the nodes without children: a key is among the
/// leaves if and only if its node has no children, there are as many
/// leaves as such nodes, and in a search tree no key is listed twice.
pub proof fn law_leaves_are_the_childless_nodes<T: Key>(t: Shape<T>)
    ensures
        forall|k: T| t.leaves().contains(k) <==> t.is_leaf_key(k),
        t.leaves().len() == t.leaf_count(),
        t.ordered() ==> t.leaves().no_duplicates(),
{
    assert forall|k: T| t.leaves().contains(k) <==> t.is_leaf_key(k) by {
        lemma_traversals_hold_keys(t, k);
    }
    lemma_traversal_lengths(t);
    if t.ordered() {
        lemma_ordered_traversals(t);
        lemma_increasing_no_duplicates(t.leaves());
    }
}

/// Removing a key from a search tree leaves a search tree that no longer
/// has the key and still has every other key it had.
pub proof fn law_remove_keeps_the_rest<T: Key>(t: Shape<T>, k: T)
    requires
        t.ordered(),
    ensures
        t.remove(k).ordered(),
        !t.remove(k).contains(k),
        forall|j: T| j != k ==> (t.remove(k).contains(j) <==> t.contains(j)),
        t.contains(k) ==> t.remove(k).size() + 1 == t.size(),
        !t.contains(k) ==> t.remove(k) == t,
{
    lemma_remove_ordered(t, k);
    lemma_remove_contains(t, k);
    if t.contains(k) {
        lemma_remove_present(t, k);
    } else {
        lemma_remove_absent(t, k);
    }
}

/// Identities tell nodes apart: in a tree whose nodes have distinct
/// identities, two keys with the same identity are the same key.
pub proof fn law_identity_tells_nodes_apart<T>(t: Shape<T>, a: T, b: T)
    requires
        t.ids_distinct(),
        t.identity_of(a) is Some,
        t.identity_of(a) == t.identity_of(b),
    ensures
        a == b,
    decreases t,
{
    match t {
        Shape::Empty => {},
        Shape::Fork { left, key, id, right } => {
            lemma_identity_of_key(*left, a);
            lemma_identity_of_key(*left, b);
            lemma_identity_of_key(*right, a);
            lemma_identity_of_key(*right, b);
            if key == a || key == b {
            } else if left.contains(a) && left.contains(b) {
                law_identity_tells_nodes_apart(*left, a, b);
            } else if !left.contains(a) && !left.contains(b) {
                law_identity_tells_nodes_apart(*right, a, b);
            }
        },
    }
}

/// An insertion leaves every node its identity: a key that the tree has
/// is found at the same identity afterwards.
pub proof fn law_insert_keeps_identities<T: Key>(t: Shape<T>, k: T, fresh: usize, j: T)
    requires
        t.ordered(),
        t.contains(j),
    ensures
        t.insert(k, fresh).identity_of(j) == t.identity_of(j),
    decreases t,
{
    if t.contains(k) {
        lemma_insert_present(t, k, fresh);
    } else {
        match t {
            Shape::Empty => {},
            Shape::Fork { left, key, id, right } => {
                if key.below(k) {
                    if key != j && !left.contains(j) {
                        law_insert_keeps_identities(*right, k, fresh, j);
                    }
                } else {
                    lemma_insert_contains(*left, k, fresh, j);
                    if key != j && left.contains(j) {
                        law_insert_keeps_identities(*left, k, fresh, j);
                    }
                }
            },
        }
    }
}

/// Taking the rightmost node out leaves every other node its identity.
pub proof fn lemma_without_max_keeps_identities<T: Key>(t: Shape<T>, j: T)
    requires
        t is Fork,
        t.ordered(),
        t.contains(j),
        j != t.max_key(),
    ensures
        t.without_max().identity_of(j) == t.identity_of(j),
    decreases t,
{
    match t {
        Shape::Empty => {},
        Shape::Fork { left, key, id, right } => {
            if *right is Empty {
                assert(!right.contains(j));
            } else {
                lemma_without_max(*right);
                lemma_max_key(*right);
                if key != j && !left.contains(j) {
                    lemma_without_max_keeps_identities(*right, j);
                }
            }
        },
    }
}

/// A removal leaves every node that stays its identity. A key other than
/// the removed one is found afterwards where it was before, or, where it
/// has moved up to take the place of the removed key, at the identity at
/// which the removed key was.
pub proof fn law_remove_keeps_identities<T: Key>(t: Shape<T>, k: T, j: T)
    requires
        t.ordered(),
        t.contains(j),
        j != k,
    ensures
        t.remove(k).identity_of(j) == t.identity_of(j) || t.remove(k).identity_of(j)
            == t.identity_of(k),
    decreases t,
{
    match t {
        Shape::Empty => {},
        Shape::Fork { left, key, id, right } => {
            if k.below(key) {
                T::below_irreflexive(k);
                lemma_remove_contains(*left, k);
                if right.contains(k) {
                    T::below_transitive(k, key, k);
                }
                lemma_identity_of_key(*left, k);
                lemma_identity_of_key(*right, k);
                if key != j && left.contains(j) {
                    law_remove_keeps_identities(*left, k, j);
                }
            } else if key.below(k) {
                T::below_irreflexive(k);
                lemma_remove_contains(*right, k);
                if left.contains(k) {
                    T::below_transitive(k, key, k);
                }
                if key != j && !left.contains(j) {
                    law_remove_keeps_identities(*right, k, j);
                }
            } else {
                T::below_connected(k, key);
                if *left is Empty {
                    assert(!left.contains(j));
                } else if *right is Empty {
                    assert(!right.contains(j));
                } else {
                    lemma_without_max(*left);
                    lemma_max_key(*left);
                    if j != left.max_key() && left.contains(j) {
                        lemma_without_max_keeps_identities(*left, j);
                    }
                }
            }
        },
    }
}

} // verus!
