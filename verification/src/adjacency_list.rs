//! Adjacency list: for each head key, the stack of its successors.

use crate::key::{labels, Key};
use crate::linked_list::SingleLinkedList;
use crate::route::{route_text, RouteBuilder};
use vstd::prelude::*;
use vstd::string::*;

verus! {

/// One row of an adjacency list: a head and its successors in the order in
/// which they were appended.
pub type Row<T> = (T, Seq<T>);

/// Whether some row of `rows` has the head `head`.
pub open spec fn has_head<T>(rows: Seq<Row<T>>, head: T) -> bool {
    exists|i: int| 0 <= i < rows.len() && (#[trigger] rows[i]).0 == head
}

/// No two rows have the same head.
pub open spec fn heads_distinct<T>(rows: Seq<Row<T>>) -> bool {
    forall|i: int, j: int|
        0 <= i < j < rows.len() ==> (#[trigger] rows[i]).0 != (#[trigger] rows[j]).0
}

/// `rows` with `val` appended to the successors of `head`.
pub open spec fn with_successor<T>(rows: Seq<Row<T>>, head: T, val: T) -> Seq<Row<T>> {
    Seq::new(
        rows.len(),
        |i: int|
            if rows[i].0 == head {
                (head, rows[i].1.push(val))
            } else {
                rows[i]
            },
    )
}

/// The line that shows one row: the head's label, a colon, and the labels
/// of the successors from the last appended to the first, with arrows
/// between them, or `None` where the head has no successor.
pub open spec fn row_text<T: Key>(row: Row<T>) -> Seq<char> {
    let successors = if row.1.len() > 0 {
        route_text(labels(row.1.reverse()))
    } else {
        "None"@
    };
    row.0.label_text() + ": "@ + successors + "\n"@
}

/// The lines of all rows, in order.
pub open spec fn rows_text<T: Key>(rows: Seq<Row<T>>) -> Seq<char>
    decreases rows.len(),
{
    if rows.len() == 0 {
        Seq::empty()
    } else {
        rows_text(rows.drop_last()) + row_text(rows.last())
    }
}

/// The stops of a route after a walk has passed one row: the head's label,
/// unless the route has it already, then the labels of the successors from
/// the last appended to the first.
pub open spec fn emit_row<T: Key>(route: Seq<Seq<char>>, row: Row<T>) -> Seq<Seq<char>> {
    let with_head = if route.contains(row.0.label_text()) {
        route
    } else {
        route.push(row.0.label_text())
    };
    with_head + labels(row.1.reverse())
}

/// The stops of the route that a walk over all rows gives, in order.
pub open spec fn emission<T: Key>(rows: Seq<Row<T>>) -> Seq<Seq<char>>
    decreases rows.len(),
{
    if rows.len() == 0 {
        Seq::empty()
    } else {
        emit_row(emission(rows.drop_last()), rows.last())
    }
}

/// Pops every value off `list` and adds its label to the route.
pub(crate) fn drain_labels<T: Key>(list: &mut SingleLinkedList<T>, route_builder: &mut RouteBuilder)
    requires
        old(list).wf(),
    ensures
        final(list).wf(),
        final(list)@ == Seq::<T>::empty(),
        final(route_builder)@ == old(route_builder)@ + labels(old(list)@.reverse()),
{
    assert(route_builder@ + labels(list@.reverse()) =~= old(route_builder)@ + labels(
        old(list)@.reverse(),
    ));
    loop
        invariant
            list.wf(),
            route_builder@ + labels(list@.reverse()) == old(route_builder)@ + labels(
                old(list)@.reverse(),
            ),
        ensures
            list.wf(),
            list@ == Seq::<T>::empty(),
            route_builder@ == old(route_builder)@ + labels(old(list)@.reverse()),
        decreases list@.len(),
    {
        let ghost held = list@;
        let ghost route = route_builder@;
        match list.pop() {
            Some(val) => {
                route_builder.push(val.label());
                assert(route_builder@ + labels(list@.reverse()) =~= route + labels(
                    held.reverse(),
                ));
            },
            None => {
                assert(list@ =~= Seq::<T>::empty());
                assert(route + labels(held.reverse()) =~= route);
                break ;
            },
        }
    }
}

/// Why the list refused an operation.
#[derive(Debug)]
pub enum AdjacencyListOpError {
    /// The list already has the head that was to be added.
    HeadAlreadyExists,
    /// The list does not have the head that was to get a successor.
    RequiredHeadNotExists,
}

/// The heads of a graph in the order in which they were added, each with
/// the stack of its successors.
pub struct AdjacencyList<T: Key> {
    heads: Vec<(T, SingleLinkedList<T>)>,
}

impl<T: Key> View for AdjacencyList<T> {
    type V = Seq<Row<T>>;

    /// The rows in the order in which the heads were added.
    closed spec fn view(&self) -> Seq<Row<T>> {
        Seq::new(self.heads@.len(), |i: int| (self.heads@[i].0, self.heads@[i].1@))
    }
}

impl<T: Key> AdjacencyList<T> {
    /// Every stack is well formed and no head occurs twice.
    pub closed spec fn wf(&self) -> bool {
        &&& forall|i: int| 0 <= i < self.heads@.len() ==> (#[trigger] self.heads@[i]).1.wf()
        &&& heads_distinct(self@)
    }

    /// In a well-formed list no head occurs twice.
    pub proof fn lemma_heads_distinct(&self)
        requires
            self.wf(),
        ensures
            heads_distinct(self@),
    {
    }

    /// The list without heads.
    pub fn new() -> (list: Self)
        ensures
            list.wf(),
            list@ == Seq::<Row<T>>::empty(),
    {
        let list = Self { heads: Vec::new() };
        assert(list@ =~= Seq::<Row<T>>::empty());
        list
    }

    /// Number of heads.
    pub fn len(&self) -> (n: usize)
        ensures
            n == self@.len(),
    {
        self.heads.len()
    }

    /// The position of the row of `head_val`, if there is one.
    fn find_head(&self, head_val: &T) -> (found: Option<usize>)
        ensures
            found is None ==> !has_head(self@, *head_val),
            found matches Some(i) ==> i < self@.len() && self@[i as int].0 == *head_val,
    {
        let mut i: usize = 0;
        while i < self.heads.len()
            invariant
                i <= self.heads.len(),
                forall|j: int| 0 <= j < i ==> (#[trigger] self@[j]).0 != *head_val,
            decreases self.heads.len() - i,
        {
            if self.heads[i].0.is_same(head_val) {
                return Some(i);
            }
            i += 1;
        }
        None
    }

    /// Whether `head_val` is a head of the list.
    pub fn has_head(&self, head_val: &T) -> (found: bool)
        ensures
            found == has_head(self@, *head_val),
    {
        self.find_head(head_val).is_some()
    }

    /// Adds `head_val` as a new head without successors. A head that the
    /// list already has is refused.
    pub fn add_head(&mut self, head_val: T) -> (res: Result<(), AdjacencyListOpError>)
        requires
            old(self).wf(),
        ensures
            final(self).wf(),
            has_head(old(self)@, head_val) ==> res == Err::<(), AdjacencyListOpError>(
                AdjacencyListOpError::HeadAlreadyExists,
            ) && final(self)@ == old(self)@,
            !has_head(old(self)@, head_val) ==> res == Ok::<(), AdjacencyListOpError>(())
                && final(self)@ == old(self)@.push((head_val, Seq::<T>::empty())),
    {
        if self.has_head(&head_val) {
            Err(AdjacencyListOpError::HeadAlreadyExists)
        } else {
            self.heads.push((head_val, SingleLinkedList::new()));
            assert(self@ =~= old(self)@.push((head_val, Seq::<T>::empty())));
            Ok(())
        }
    }

    /// Appends `val` to the successors of `head_val`. A head that the list
    /// does not have is refused.
    pub fn append_to_head(&mut self, head_val: T, val: T) -> (res: Result<
        (),
        AdjacencyListOpError,
    >)
        requires
            old(self).wf(),
            forall|i: int|
                0 <= i < old(self)@.len() && (#[trigger] old(self)@[i]).0 == head_val ==> old(
                    self,
                )@[i].1.len() < usize::MAX,
        ensures
            final(self).wf(),
            has_head(old(self)@, head_val) ==> res == Ok::<(), AdjacencyListOpError>(())
                && final(self)@ == with_successor(old(self)@, head_val, val),
            !has_head(old(self)@, head_val) ==> res == Err::<(), AdjacencyListOpError>(
                AdjacencyListOpError::RequiredHeadNotExists,
            ) && final(self)@ == old(self)@,
    {
        match self.find_head(&head_val) {
            Some(i) => {
                assert(old(self)@[i as int].0 == head_val);
                self.heads[i].1.push(val);
                assert(self@ =~= with_successor(old(self)@, head_val, val));
                Ok(())
            },
            None => Err(AdjacencyListOpError::RequiredHeadNotExists),
        }
    }

    /// A copy of the row at position `i`: the head and the stack of its
    /// successors.
    pub fn row(&self, i: usize) -> (row: (T, SingleLinkedList<T>))
        requires
            self.wf(),
            i < self@.len(),
        ensures
            row.0 == self@[i as int].0,
            row.1@ == self@[i as int].1,
            row.1.wf(),
    {
        (self.heads[i].0, self.heads[i].1.clone())
    }

    /// The list as text, a line for every head.
    pub fn debug_text(&self) -> (text: String)
        requires
            self.wf(),
        ensures
            text@ == rows_text(self@),
    {
        let mut text = String::new();
        let mut i: usize = 0;
        while i < self.heads.len()
            invariant
                self.wf(),
                i <= self.heads.len(),
                text@ == rows_text(self@.take(i as int)),
            decreases self.heads.len() - i,
        {
            let (head, mut list) = self.row(i);
            let mut route_builder = RouteBuilder::with_arrow();
            drain_labels(&mut list, &mut route_builder);
            assert(route_builder@ =~= labels(self@[i as int].1.reverse()));
            text.append(head.label().as_str());
            text.append(": ");
            if route_builder.len() > 0 {
                text.append(route_builder.build().as_str());
            } else {
                text.append("None");
            }
            text.append("\n");
            proof {
                let done = self@.take(i as int + 1);
                assert(done.drop_last() =~= self@.take(i as int));
                assert(done.last() == self@[i as int]);
                assert(text@ =~= rows_text(self@.take(i as int)) + row_text(self@[i as int]));
            }
            i += 1;
        }
        proof {
            assert(self@.take(self.heads.len() as int) =~= self@);
        }
        text
    }
}

} // verus!
