use vstd::prelude::*;

verus! {

use crate::error::NotFound;
use crate::vector_based::VectorBasedDataStructure;
use crate::vector_based::vec_capacity;

/// The abstract state of one graph node: its payload and its outgoing
/// edges, as indices into the owning graph's arena.
pub struct GraphNodeView<T> {
    pub value: T,
    pub lines: Seq<usize>,
}

/// No two entries of an edge sequence point at the same target node.
pub open spec fn lines_distinct(lines: Seq<usize>) -> bool {
    forall|i: int, j: int| 0 <= i < j < lines.len() ==> lines[i] != lines[j]
}

impl<T> GraphNodeView<T> {
    /// No two edges of this node point at the same target node.
    pub open spec fn distinct_lines(self) -> bool {
        lines_distinct(self.lines)
    }
}

/// The edge sequence after adding an edge to `target`: unchanged when such
/// an edge already exists, extended by it otherwise.
pub open spec fn add_line_spec(lines: Seq<usize>, target: usize) -> Seq<usize> {
    if lines.contains(target) {
        lines
    } else {
        lines.push(target)
    }
}

/// How many edges of `lines` point at `target`.
pub open spec fn line_count(lines: Seq<usize>, target: usize) -> nat
    decreases lines.len(),
{
    if lines.len() == 0 {
        0
    } else {
        line_count(lines.drop_last(), target) + if lines.last() == target {
            1nat
        } else {
            0nat
        }
    }
}

/// In a duplicate-free edge sequence every target occurs at most once.
proof fn lemma_line_count_distinct(lines: Seq<usize>, target: usize)
    requires
        lines_distinct(lines),
    ensures
        line_count(lines, target) == if lines.contains(target) {
            1nat
        } else {
            0nat
        },
    decreases lines.len(),
{
    if lines.len() == 0 {
    } else {
        let prefix = lines.drop_last();
        assert(lines_distinct(prefix));
        lemma_line_count_distinct(prefix, target);
        if lines.last() == target {
            assert(!prefix.contains(target)) by {
                if prefix.contains(target) {
                    let i = choose|i: int| 0 <= i < prefix.len() && prefix[i] == target;
                    assert(lines[i] == lines[lines.len() - 1]);
                }
            }
        } else {
            if lines.contains(target) {
                let i = choose|i: int| 0 <= i < lines.len() && lines[i] == target;
                assert(prefix[i] == target);
            }
            if prefix.contains(target) {
                let i = choose|i: int| 0 <= i < prefix.len() && prefix[i] == target;
                assert(lines[i] == target);
            }
        }
    }
}

/// Edge deduplication: adding an edge to the same target twice leaves
/// exactly one edge to it (when the node's edges were duplicate-free, as
/// the node invariant guarantees).
pub proof fn lemma_add_line_dedup(lines: Seq<usize>, target: usize)
    requires
        lines_distinct(lines),
    ensures
        line_count(add_line_spec(add_line_spec(lines, target), target), target) == 1,
{
    let once = add_line_spec(lines, target);
    assert(once.contains(target)) by {
        if !lines.contains(target) {
            assert(once.last() == target);
            assert(once[once.len() - 1] == target);
        }
    }
    assert(add_line_spec(once, target) == once);
    assert(lines_distinct(once)) by {
        if !lines.contains(target) {
            assert forall|i: int, j: int| 0 <= i < j < once.len() implies once[i] != once[j] by {
                if j < lines.len() {
                } else {
                    assert(once[j] == target);
                    assert(once[i] == lines[i]);
                    if lines[i] == target {
                        assert(lines.contains(target));
                    }
                }
            }
        }
    }
    lemma_line_count_distinct(once, target);
}

/// A node of a directed graph: a payload and its outgoing edges ("lines"),
/// stored as indices of target nodes in the owning graph's arena. Storing
/// indices rather than references keeps the arena the single owner of every
/// node. Edges are deduplicated by target index, so equality of two nodes'
/// payloads never conflates two distinct targets.
pub struct GraphNode<T> {
    value: T,
    lines: Vec<usize>,
}

impl<T> View for GraphNode<T> {
    type V = GraphNodeView<T>;

    closed spec fn view(&self) -> GraphNodeView<T> {
        GraphNodeView { value: self.value, lines: self.lines@ }
    }
}

impl<T> GraphNode<T> {
    /// An isolated node holding `value`, with no edges.
    pub fn new(value: T) -> (node: Self)
        ensures
            node@.value == value,
            node@.lines == Seq::<usize>::empty(),
            node@.distinct_lines(),
    {
        GraphNode { value, lines: Vec::new() }
    }

    /// A node holding `value` with the given edge targets, which must be
    /// duplicate-free (the node invariant).
    pub fn new_with_lines(value: T, lines: Vec<usize>) -> (node: Self)
        requires
            lines_distinct(lines@),
        ensures
            node@.value == value,
            node@.lines == lines@,
            node@.distinct_lines(),
    {
        GraphNode { value, lines }
    }

    /// The payload.
    pub fn get_value(&self) -> (result: &T)
        ensures
            *result == self@.value,
    {
        &self.value
    }

    /// Replaces the payload; the edges stay as they are.
    pub fn set_value(&mut self, new_value: T)
        ensures
            final(self)@.value == new_value,
            final(self)@.lines == old(self)@.lines,
    {
        self.value = new_value;
    }

    /// The outgoing edge targets, in insertion order.
    pub fn get_lines(&self) -> (result: &Vec<usize>)
        ensures
            result@ == self@.lines,
    {
        &self.lines
    }

    fn find_line(&self, target: usize) -> (result: Option<usize>)
        ensures
            result matches Some(i) ==> i < self@.lines.len() && self@.lines[i as int] == target,
            result is None ==> !self@.lines.contains(target),
    {
        let mut i: usize = 0;
        while i < self.lines.len()
            invariant
                i <= self@.lines.len(),
                forall|j: int| 0 <= j < i ==> self@.lines[j] != target,
            decreases self@.lines.len() - i,
        {
            if self.lines[i] == target {
                return Some(i);
            }
            i = i + 1;
        }
        proof {
            if self@.lines.contains(target) {
                let j = choose|j: int| 0 <= j < self@.lines.len() && self@.lines[j] == target;
                assert(self@.lines[j] != target);
            }
        }
        None
    }

    /// Appends an edge to `target` unless one is already present.
    pub fn add_line(&mut self, target: usize)
        ensures
            final(self)@.value == old(self)@.value,
            final(self)@.lines == add_line_spec(old(self)@.lines, target),
            old(self)@.distinct_lines() ==> final(self)@.distinct_lines(),
    {
        match self.find_line(target) {
            Some(_) => {},
            None => {
                self.lines.push(target);
                proof {
                    let before = old(self)@.lines;
                    if old(self)@.distinct_lines() {
                        assert forall|i: int, j: int|
                            0 <= i < j < final(self)@.lines.len() implies final(self)@.lines[i]
                            != final(self)@.lines[j] by {
                            if j == before.len() {
                                if before[i] == target {
                                    assert(before.contains(target));
                                }
                            }
                        }
                    }
                }
            },
        }
    }

    /// Removes the first edge to `target`; reports `NotFound` (leaving the
    /// node unchanged) when no such edge exists.
    pub fn remove_line(&mut self, target: usize) -> (result: Result<(), NotFound>)
        ensures
            final(self)@.value == old(self)@.value,
            result is Ok <==> old(self)@.lines.contains(target),
            result is Ok ==> exists|i: int|
                0 <= i < old(self)@.lines.len() && old(self)@.lines[i] == target && final(self)@.lines
                    == #[trigger] old(self)@.lines.remove(i),
            result is Err ==> final(self)@.lines == old(self)@.lines,
            old(self)@.distinct_lines() ==> final(self)@.distinct_lines(),
    {
        match self.find_line(target) {
            Some(i) => {
                self.lines.remove(i);
                proof {
                    let before = old(self)@.lines;
                    assert(before.contains(target)) by {
                        assert(before[i as int] == target);
                    }
                    if old(self)@.distinct_lines() {
                        assert forall|p: int, q: int|
                            0 <= p < q < final(self)@.lines.len() implies final(self)@.lines[p]
                            != final(self)@.lines[q] by {
                            let a: int = if p < i { p } else { p + 1 };
                            let b: int = if q < i { q } else { q + 1 };
                            assert(final(self)@.lines[p] == before[a]);
                            assert(final(self)@.lines[q] == before[b]);
                        }
                    }
                }
                Ok(())
            },
            None => Err(NotFound),
        }
    }
}

/// A directed graph: an arena that owns every node, addressed by stable
/// index. Edges are many-to-one back-references by index, so no node owns
/// another and an edge can never outlive its target.
pub struct Graph<T> {
    nodes: Vec<GraphNode<T>>,
}

impl<T> View for Graph<T> {
    type V = Seq<GraphNodeView<T>>;

    closed spec fn view(&self) -> Seq<GraphNodeView<T>> {
        self.nodes@.map_values(|node: GraphNode<T>| node@)
    }
}

impl<T> Graph<T> {
    /// Every node's edges are duplicate-free and point inside the arena.
    pub open spec fn well_formed(self) -> bool {
        forall|i: int|
            0 <= i < self@.len() ==> {
                &&& (#[trigger] self@[i]).distinct_lines()
                &&& forall|k: int| 0 <= k < self@[i].lines.len() ==> self@[i].lines[k] < self@.len()
            }
    }

    /// Adds an isolated node holding `value` and returns its index.
    pub fn add_node(&mut self, value: T) -> (index: usize)
        requires
            old(self).well_formed(),
        ensures
            final(self).well_formed(),
            index == old(self)@.len(),
            final(self)@ == old(self)@.push(GraphNodeView { value, lines: Seq::empty() }),
    {
        let index = self.nodes.len();
        self.nodes.push(GraphNode::new(value));
        proof {
            assert(final(self)@ =~= old(self)@.push(
                GraphNodeView { value, lines: Seq::empty() },
            ));
        }
        index
    }

    /// The node at `index`, or `None` when the index is out of range.
    pub fn get_node(&self, index: usize) -> (result: Option<&GraphNode<T>>)
        ensures
            index < self@.len() ==> (result matches Some(node) && node@ == self@[index as int]),
            index >= self@.len() ==> result is None,
    {
        if index < self.nodes.len() {
            Some(&self.nodes[index])
        } else {
            None
        }
    }

    /// Appends an edge from node `from` to node `to` unless one is already
    /// present; reports `NotFound` when either index is out of range.
    pub fn add_line(&mut self, from: usize, to: usize) -> (result: Result<(), NotFound>)
        requires
            old(self).well_formed(),
        ensures
            final(self).well_formed(),
            result is Ok <==> (from < old(self)@.len() && to < old(self)@.len()),
            result is Ok ==> final(self)@ == old(self)@.update(
                from as int,
                GraphNodeView {
                    value: old(self)@[from as int].value,
                    lines: add_line_spec(old(self)@[from as int].lines, to),
                },
            ),
            result is Err ==> final(self)@ == old(self)@,
    {
        if from < self.nodes.len() && to < self.nodes.len() {
            let node = &mut self.nodes[from];
            node.add_line(to);
            proof {
                let before = old(self)@;
                let after = final(self)@;
                assert(after =~= before.update(
                    from as int,
                    GraphNodeView {
                        value: before[from as int].value,
                        lines: add_line_spec(before[from as int].lines, to),
                    },
                ));
                assert forall|i: int| 0 <= i < after.len() implies {
                    &&& (#[trigger] after[i]).distinct_lines()
                    &&& forall|k: int| 0 <= k < after[i].lines.len() ==> after[i].lines[k]
                        < after.len()
                } by {
                    assert(before[i].distinct_lines());
                    if i == from {
                        assert forall|k: int| 0 <= k < after[i].lines.len() implies after[i].lines[k]
                            < after.len() by {
                            if k < before[i].lines.len() {
                                assert(after[i].lines[k] == before[i].lines[k]);
                            } else {
                                assert(after[i].lines[k] == to);
                            }
                        }
                    }
                }
            }
            Ok(())
        } else {
            Err(NotFound)
        }
    }

    /// Removes the first edge from node `from` to node `to`; reports
    /// `NotFound` (leaving the graph unchanged) when `from` is out of range
    /// or no such edge exists.
    pub fn remove_line(&mut self, from: usize, to: usize) -> (result: Result<(), NotFound>)
        requires
            old(self).well_formed(),
        ensures
            final(self).well_formed(),
            result is Ok <==> (from < old(self)@.len() && old(self)@[from as int].lines.contains(
                to,
            )),
            result is Ok ==> exists|i: int|
                {
                    &&& 0 <= i < old(self)@[from as int].lines.len()
                    &&& old(self)@[from as int].lines[i] == to
                    &&& final(self)@ == old(self)@.update(
                        from as int,
                        GraphNodeView {
                            value: old(self)@[from as int].value,
                            lines: #[trigger] old(self)@[from as int].lines.remove(i),
                        },
                    )
                },
            result is Err ==> final(self)@ == old(self)@,
    {
        if from < self.nodes.len() {
            let node = &mut self.nodes[from];
            let removed = node.remove_line(to);
            match removed {
                Ok(()) => {
                    proof {
                        let whole_before = old(self)@;
                        let after = final(self)@;
                        let before = whole_before[from as int].lines;
                        let i = choose|i: int|
                            0 <= i < before.len() && before[i] == to && after[from as int].lines
                                == #[trigger] before.remove(i);
                        assert(after =~= whole_before.update(
                            from as int,
                            GraphNodeView { value: whole_before[from as int].value, lines: before.remove(i) },
                        ));
                        assert forall|p: int| 0 <= p < after.len() implies {
                            &&& (#[trigger] after[p]).distinct_lines()
                            &&& forall|k: int| 0 <= k < after[p].lines.len() ==> after[p].lines[k]
                                < after.len()
                        } by {
                            assert(whole_before[p].distinct_lines());
                            if p == from {
                                assert forall|k: int|
                                    0 <= k < after[p].lines.len() implies after[p].lines[k]
                                    < after.len() by {
                                    let a: int = if k < i {
                                        k
                                    } else {
                                        k + 1
                                    };
                                    assert(after[p].lines[k] == before[a]);
                                }
                            }
                        }
                    }
                    Ok(())
                },
                Err(e) => {
                    proof {
                        assert(final(self)@ =~= old(self)@);
                    }
                    Err(e)
                },
            }
        } else {
            Err(NotFound)
        }
    }
}

impl<T> VectorBasedDataStructure<T> for Graph<T> {
    open spec fn spec_view(&self) -> Seq<T> {
        self@.map_values(|node: GraphNodeView<T>| node.value)
    }

    fn new() -> (s: Self)
        ensures
            s.well_formed(),
            s@ == Seq::<GraphNodeView<T>>::empty(),
    {
        let graph = Graph { nodes: Vec::new() };
        proof {
            assert(graph.spec_view() =~= Seq::<T>::empty());
            assert(graph@ =~= Seq::<GraphNodeView<T>>::empty());
        }
        graph
    }

    fn with_capacity(capacity: usize) -> (s: Self)
        ensures
            s.well_formed(),
            s@ == Seq::<GraphNodeView<T>>::empty(),
    {
        let graph = Graph { nodes: Vec::with_capacity(capacity) };
        proof {
            assert(graph.spec_view() =~= Seq::<T>::empty());
            assert(graph@ =~= Seq::<GraphNodeView<T>>::empty());
        }
        graph
    }

    fn len(&self) -> (r: usize) {
        self.nodes.len()
    }

    fn capacity(&self) -> (r: usize) {
        vec_capacity(&self.nodes)
    }
}

} // verus!
