//! Directed graph given by its edges.

use crate::adjacency_list::{has_head, with_successor, AdjacencyList, Row};
use crate::key::Key;
use vstd::prelude::*;

verus! {

/// An edge: its source and its target.
pub type Edge<T> = (T, T);

/// The position of the first edge equal to `e`; the number of edges where
/// there is none.
pub open spec fn first_match<T>(edges: Seq<Edge<T>>, e: Edge<T>) -> int
    decreases edges.len(),
{
    if edges.len() == 0 {
        0
    } else if edges[0] == e {
        0
    } else {
        1 + first_match(edges.drop_first(), e)
    }
}

/// Whether the target of some edge is the source of an edge before it.
pub open spec fn has_back_edge<T>(edges: Seq<Edge<T>>) -> bool {
    exists|i: int, j: int|
        #![trigger edges[i], edges[j]]
        0 <= j < i < edges.len() && edges[i].1 == edges[j].0
}

/// The sources of the edges, each of them once, in the order in which they
/// first occur.
pub open spec fn sources<T>(edges: Seq<Edge<T>>) -> Seq<T>
    decreases edges.len(),
{
    if edges.len() == 0 {
        Seq::empty()
    } else {
        let before = sources(edges.drop_last());
        if before.contains(edges.last().0) {
            before
        } else {
            before.push(edges.last().0)
        }
    }
}

/// The targets of the edges that leave `source`, in the order of the edges.
pub open spec fn targets_of<T>(edges: Seq<Edge<T>>, source: T) -> Seq<T>
    decreases edges.len(),
{
    if edges.len() == 0 {
        Seq::empty()
    } else {
        let before = targets_of(edges.drop_last(), source);
        if edges.last().0 == source {
            before.push(edges.last().1)
        } else {
            before
        }
    }
}

/// The rows of the adjacency list of a graph: a row for every source, in
/// the order in which the sources first occur, with the targets of the
/// edges that leave it.
pub open spec fn edge_rows<T>(edges: Seq<Edge<T>>) -> Seq<Row<T>> {
    Seq::new(
        sources(edges).len(),
        |i: int| (sources(edges)[i], targets_of(edges, sources(edges)[i])),
    )
}

/// The rows after the edge `e` has been entered: its source becomes a head
/// if it is none yet, and its target the last successor of that head.
pub open spec fn enter_edge<T>(rows: Seq<Row<T>>, e: Edge<T>) -> Seq<Row<T>> {
    let with_head = if has_head(rows, e.0) {
        rows
    } else {
        rows.push((e.0, Seq::empty()))
    };
    with_successor(with_head, e.0, e.1)
}

/// A key that is no source has no targets.
pub proof fn lemma_targets_need_a_source<T>(edges: Seq<Edge<T>>, source: T)
    requires
        !sources(edges).contains(source),
    ensures
        targets_of(edges, source) == Seq::<T>::empty(),
    decreases edges.len(),
{
    if edges.len() > 0 {
        let before = sources(edges.drop_last());
        let last = edges.last().0;
        if before.contains(source) {
            let i = choose|i: int| 0 <= i < before.len() && before[i] == source;
            assert(sources(edges)[i] == source);
        }
        if last == source {
            if before.contains(last) {
            } else {
                assert(sources(edges)[before.len() as int] == source);
            }
        }
        lemma_targets_need_a_source(edges.drop_last(), source);
    }
}

/// The rows of a graph with one more edge are the rows of the graph with
/// that edge entered.
pub proof fn lemma_edge_rows_push<T>(edges: Seq<Edge<T>>, e: Edge<T>)
    ensures
        edge_rows(edges.push(e)) == enter_edge(edge_rows(edges), e),
        forall|h: T| has_head(edge_rows(edges), h) <==> sources(edges).contains(h),
{
    let more = edges.push(e);
    let rows = edge_rows(edges);
    let s = sources(edges);
    assert(more.drop_last() =~= edges);
    assert(more.last() == e);
    assert forall|h: T| has_head(rows, h) <==> s.contains(h) by {
        if has_head(rows, h) {
            let i = choose|i: int| 0 <= i < rows.len() && (#[trigger] rows[i]).0 == h;
            assert(s[i] == h);
        }
        if s.contains(h) {
            let i = choose|i: int| 0 <= i < s.len() && s[i] == h;
            assert(rows[i].0 == h);
        }
    }
    if s.contains(e.0) {
        assert(edge_rows(more) =~= enter_edge(rows, e));
    } else {
        lemma_targets_need_a_source(edges, e.0);
        assert(Seq::<T>::empty().push(e.1) =~= targets_of(more, e.0));
        assert(edge_rows(more) =~= enter_edge(rows, e));
    }
}

/// Whether `path` lists the positions of edges that follow one another:
/// each edge starts where the one before it ends.
pub open spec fn is_walk<T>(edges: Seq<Edge<T>>, path: Seq<int>) -> bool {
    &&& forall|i: int| 0 <= i < path.len() ==> 0 <= #[trigger] path[i] < edges.len()
    &&& forall|i: int|
        0 <= i < path.len() - 1 ==> edges[#[trigger] path[i]].1 == edges[path[i + 1]].0
}

/// Whether `path` is a walk that ends where it starts.
pub open spec fn is_cycle<T>(edges: Seq<Edge<T>>, path: Seq<int>) -> bool {
    &&& path.len() > 0
    &&& is_walk(edges, path)
    &&& edges[path.last()].1 == edges[path[0]].0
}

/// Along a walk in a graph without back edge, the positions of the edges
/// never fall.
pub proof fn lemma_walk_goes_on<T>(edges: Seq<Edge<T>>, path: Seq<int>, i: int)
    requires
        !has_back_edge(edges),
        is_walk(edges, path),
        0 <= i < path.len(),
    ensures
        path[0] <= path[i],
    decreases i,
{
    if i > 0 {
        lemma_walk_goes_on(edges, path, i - 1);
        let a = path[i - 1];
        let b = path[i];
        assert(edges[a].1 == edges[b].0);
        if b < a {
            assert(edges[a].1 == edges[b].0 && 0 <= b < a < edges.len());
        }
    }
}

/// What the refusal of back edges is good for: a graph that has no back
/// edge, and no edge from a key to itself, has no cycle.
pub proof fn law_no_back_edge_no_cycle<T>(edges: Seq<Edge<T>>, path: Seq<int>)
    requires
        !has_back_edge(edges),
        forall|i: int| 0 <= i < edges.len() ==> (#[trigger] edges[i]).0 != edges[i].1,
    ensures
        !is_cycle(edges, path),
{
    if is_cycle(edges, path) {
        let first = path[0];
        let last = path.last();
        lemma_walk_goes_on(edges, path, path.len() - 1);
        assert(edges[last].1 == edges[first].0);
        if first < last {
            assert(edges[last].1 == edges[first].0 && 0 <= first < last < edges.len());
        }
        assert(edges[first].0 != edges[first].1);
    }
}

/// Where the first edge equal to `e` is: at the position before which no
/// edge equals `e`.
pub proof fn lemma_first_match<T>(edges: Seq<Edge<T>>, e: Edge<T>, i: int)
    requires
        0 <= i <= edges.len(),
        forall|j: int| 0 <= j < i ==> edges[j] != e,
        i < edges.len() ==> edges[i] == e,
    ensures
        first_match(edges, e) == i,
    decreases edges.len(),
{
    if i > 0 {
        let tail = edges.drop_first();
        assert forall|j: int| 0 <= j < i - 1 implies tail[j] != e by {
            assert(tail[j] == edges[j + 1]);
        }
        lemma_first_match(tail, e, i - 1);
    }
}

/// Why the graph refused an operation.
#[derive(Debug)]
pub enum GraphOpError {
    /// The graph does not have the edge that was to be removed.
    TargetNotExists,
    /// The target of some edge is the source of an earlier edge.
    ShouldBeDAG,
}

/// A directed graph: its edges in the order in which they were pushed. An
/// edge may occur more than once.
#[derive(Debug)]
pub struct Graph<T: Key> {
    nodes: Vec<(T, T)>,
}

impl<T: Key> View for Graph<T> {
    type V = Seq<Edge<T>>;

    /// The edges in the order in which they were pushed.
    closed spec fn view(&self) -> Seq<Edge<T>> {
        self.nodes@
    }
}

impl<T: Key> Graph<T> {
    /// The graph without edges.
    pub fn new() -> (graph: Self)
        ensures
            graph@ == Seq::<Edge<T>>::empty(),
    {
        Self { nodes: Vec::new() }
    }

    /// Adds the edge `relation` behind the others.
    pub fn push(&mut self, relation: (T, T))
        ensures
            final(self)@ == old(self)@.push(relation),
    {
        self.nodes.push(relation);
    }

    /// Removes the first edge equal to `relation`. Where no edge equals
    /// it, that is reported and the graph stays as it is.
    pub fn remove(&mut self, relation: &(T, T)) -> (res: Result<(), GraphOpError>)
        ensures
            old(self)@.contains(*relation) ==> res == Ok::<(), GraphOpError>(()) && final(self)@
                == old(self)@.remove(first_match(old(self)@, *relation)),
            !old(self)@.contains(*relation) ==> res == Err::<(), GraphOpError>(
                GraphOpError::TargetNotExists,
            ) && final(self)@ == old(self)@,
    {
        let mut target_idx_opt: Option<usize> = None;
        let mut idx: usize = 0;
        while idx < self.nodes.len()
            invariant_except_break
                idx <= self.nodes.len(),
                target_idx_opt is None,
                forall|j: int| 0 <= j < idx ==> self@[j] != *relation,
            ensures
                target_idx_opt is None ==> forall|j: int| 0 <= j < self@.len() ==> self@[j]
                    != *relation,
                target_idx_opt matches Some(i) ==> i < self@.len() && self@[i as int] == *relation
                    && forall|j: int| 0 <= j < i ==> self@[j] != *relation,
            decreases self.nodes.len() - idx,
        {
            let rel = &self.nodes[idx];
            if rel.0.is_same(&relation.0) && rel.1.is_same(&relation.1) {
                target_idx_opt = Some(idx);
                break ;
            }
            idx += 1;
        }
        if let Some(target_idx) = target_idx_opt {
            proof {
                lemma_first_match(self@, *relation, target_idx as int);
            }
            self.nodes.remove(target_idx);
            Ok(())
        } else {
            Err(GraphOpError::TargetNotExists)
        }
    }

    /// The adjacency list of the graph: a head for every source, in the
    /// order in which the sources first occur, with the targets of its
    /// edges as its successors. A graph in which the target of an edge is
    /// the source of an earlier edge is refused.
    pub fn adjacency_list(&self) -> (res: Result<AdjacencyList<T>, GraphOpError>)
        ensures
            has_back_edge(self@) ==> res == Err::<AdjacencyList<T>, GraphOpError>(
                GraphOpError::ShouldBeDAG,
            ),
            !has_back_edge(self@) ==> res is Ok && res->Ok_0.wf() && res->Ok_0@ == edge_rows(
                self@,
            ),
    {
        let mut adj_list = AdjacencyList::new();
        let mut idx: usize = 0;
        assert(self@.take(0) =~= Seq::<Edge<T>>::empty());
        assert(edge_rows(self@.take(0)) =~= Seq::<Row<T>>::empty());
        while idx < self.nodes.len()
            invariant
                idx <= self.nodes.len(),
                adj_list.wf(),
                adj_list@ == edge_rows(self@.take(idx as int)),
                forall|a: int, b: int|
                    #![trigger self@[a], self@[b]]
                    0 <= b < a < idx ==> self@[a].1 != self@[b].0,
                forall|h: T|
                    has_head(adj_list@, h) <==> exists|b: int|
                        0 <= b < idx && (#[trigger] self@[b]).0 == h,
                forall|r: int| 0 <= r < adj_list@.len() ==> (#[trigger] adj_list@[r]).1.len() <= idx,
            decreases self.nodes.len() - idx,
        {
            let head = &self.nodes[idx].0;
            let next = &self.nodes[idx].1;
            let ghost rows = adj_list@;
            if adj_list.has_head(next) {
                proof {
                    let b = choose|b: int| 0 <= b < idx && (#[trigger] self@[b]).0 == *next;
                    assert(self@[idx as int].1 == self@[b].0);
                }
                return Err(GraphOpError::ShouldBeDAG);
            }
            if !adj_list.has_head(head) {
                adj_list.add_head(*head).unwrap();
                assert(adj_list@[rows.len() as int].0 == *head);
            }
            let ghost with_head = adj_list@;
            assert(has_head(with_head, *head)) by {
                if has_head(rows, *head) {
                    let r = choose|r: int| 0 <= r < rows.len() && (#[trigger] rows[r]).0 == *head;
                    assert(with_head[r].0 == *head);
                }
            }
            adj_list.append_to_head(*head, *next).unwrap();
            proof {
                let done = self@.take(idx as int + 1);
                assert(done =~= self@.take(idx as int).push(self@[idx as int]));
                lemma_edge_rows_push(self@.take(idx as int), self@[idx as int]);
                assert(adj_list@ == enter_edge(rows, self@[idx as int]));
                assert forall|h: T| has_head(adj_list@, h) <==> exists|b: int|
                    0 <= b < idx + 1 && (#[trigger] self@[b]).0 == h by {
                    if has_head(adj_list@, h) {
                        let r = choose|r: int|
                            0 <= r < adj_list@.len() && (#[trigger] adj_list@[r]).0 == h;
                        if h != *head {
                            assert(r < rows.len() ==> rows[r].0 == h);
                            assert(with_head[r].0 == h);
                            assert(has_head(rows, h));
                        } else {
                            assert(self@[idx as int].0 == h);
                        }
                    }
                    if exists|b: int| 0 <= b < idx + 1 && (#[trigger] self@[b]).0 == h {
                        let b = choose|b: int| 0 <= b < idx + 1 && (#[trigger] self@[b]).0 == h;
                        if b < idx {
                            assert(has_head(rows, h));
                            let r = choose|r: int|
                                0 <= r < rows.len() && (#[trigger] rows[r]).0 == h;
                            assert(with_head[r].0 == h);
                            assert(adj_list@[r].0 == h);
                        } else {
                            let r = choose|r: int|
                                0 <= r < with_head.len() && (#[trigger] with_head[r]).0 == *head;
                            assert(adj_list@[r].0 == h);
                        }
                    }
                }
                assert forall|r: int| 0 <= r < adj_list@.len() implies (
                #[trigger] adj_list@[r]).1.len() <= idx + 1 by {
                    if r < rows.len() {
                        assert(rows[r].1.len() <= idx);
                        assert(with_head[r] == rows[r]);
                    }
                }
            }
            idx += 1;
        }
        proof {
            assert(self@.take(idx as int) =~= self@);
        }
        Ok(adj_list)
    }
}

} // verus!
