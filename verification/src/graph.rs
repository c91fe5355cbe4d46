//! The graph of steps and edges, and its validation.

use std::sync::Arc;
use vstd::prelude::*;
use crate::edge::Edge;
use crate::error::GraphError;
use crate::keys::KeySet;
use crate::node::{KeyView, NodeKey};

verus! {

/// The keys of the rows of a table, in the order of the rows.
pub open spec fn row_keys<V>(rows: Seq<(NodeKey, V)>) -> Seq<KeyView> {
    rows.map_values(|row: (NodeKey, V)| row.0@)
}

/// The keys that wait in a frontier.
pub open spec fn waiting(frontier: Seq<NodeKey>) -> Set<KeyView> {
    Set::new(|key: KeyView| exists|i: int| 0 <= i < frontier.len() && (#[trigger] frontier[i])@ == key)
}

/// Every destination named by one of `edges`.
pub open spec fn edge_targets<E: Edge>(edges: Seq<E>) -> Set<KeyView>
    decreases edges.len(),
{
    if edges.len() == 0 {
        Set::empty()
    } else {
        edge_targets(edges.drop_last()).union(edges.last().targets())
    }
}

/// Every destination named by an edge of one of `rows`.
pub open spec fn row_targets<E: Edge>(rows: Seq<(NodeKey, Vec<E>)>) -> Set<KeyView>
    decreases rows.len(),
{
    if rows.len() == 0 {
        Set::empty()
    } else {
        row_targets(rows.drop_last()).union(edge_targets(rows.last().1@))
    }
}

proof fn lemma_edge_targets<E: Edge>(edges: Seq<E>)
    requires
        forall|i: int| 0 <= i < edges.len() ==> (#[trigger] edges[i]).wf(),
    ensures
        edge_targets(edges).finite(),
        forall|i: int, to: KeyView|
            0 <= i < edges.len() && (#[trigger] edges[i]).targets().contains(to) ==> #[trigger] edge_targets(
                edges,
            ).contains(to),
    decreases edges.len(),
{
    if edges.len() > 0 {
        let rest = edges.drop_last();
        assert forall|i: int| 0 <= i < rest.len() implies (#[trigger] rest[i]).wf() by {
            assert(rest[i] == edges[i]);
        }
        lemma_edge_targets(rest);
        edges.last().lemma_targets_finite();
        assert forall|i: int, to: KeyView|
            0 <= i < edges.len() && (#[trigger] edges[i]).targets().contains(to) implies #[trigger] edge_targets(
            edges,
        ).contains(to) by {
            if i < rest.len() {
                assert(rest[i] == edges[i]);
            }
        }
    }
}

proof fn lemma_row_targets<E: Edge>(rows: Seq<(NodeKey, Vec<E>)>)
    requires
        forall|r: int, i: int|
            0 <= r < rows.len() && 0 <= i < rows[r].1@.len() ==> (#[trigger] rows[r].1@[i]).wf(),
    ensures
        row_targets(rows).finite(),
        forall|r: int, i: int, to: KeyView|
            0 <= r < rows.len() && 0 <= i < rows[r].1@.len() && (#[trigger] rows[r].1@[i]).targets().contains(
                to,
            ) ==> #[trigger] row_targets(rows).contains(to),
    decreases rows.len(),
{
    if rows.len() > 0 {
        let rest = rows.drop_last();
        let last = rows.last().1@;
        assert forall|r: int, i: int| 0 <= r < rest.len() && 0 <= i < rest[r].1@.len() implies (
        #[trigger] rest[r].1@[i]).wf() by {
            assert(rest[r] == rows[r]);
        }
        lemma_row_targets(rest);
        assert forall|i: int| 0 <= i < last.len() implies (#[trigger] last[i]).wf() by {
            assert(last[i] == rows[rows.len() - 1].1@[i]);
        }
        lemma_edge_targets(last);
        assert forall|r: int, i: int, to: KeyView|
            0 <= r < rows.len() && 0 <= i < rows[r].1@.len() && (#[trigger] rows[r].1@[i]).targets().contains(
                to,
            ) implies #[trigger] row_targets(rows).contains(to) by {
            if r < rest.len() {
                assert(rest[r] == rows[r]);
                assert(rest[r].1@[i].targets().contains(to));
            } else {
                assert(last[i].targets().contains(to));
            }
        }
    }
}

/// Each key of a table without repeated keys is found at its own row.
proof fn lemma_slot(keys: Seq<KeyView>, i: int)
    requires
        keys.no_duplicates(),
        0 <= i < keys.len(),
    ensures
        keys.contains(keys[i]),
        keys.index_of(keys[i]) == i,
{
}

/// The row of `rows` that holds `key`.
fn find_row<V>(rows: &Vec<(NodeKey, V)>, key: &NodeKey) -> (at: Option<usize>)
    ensures
        match at {
            Some(i) => i < rows.len() && rows@[i as int].0@ == key@ && row_keys(rows@).contains(key@),
            None => !row_keys(rows@).contains(key@),
        },
{
    let mut i: usize = 0;
    while i < rows.len()
        invariant
            i <= rows.len(),
            forall|j: int| 0 <= j < i ==> row_keys(rows@)[j] != key@,
        decreases rows.len() - i,
    {
        if rows[i].0.same(key) {
            assert(row_keys(rows@)[i as int] == key@);
            return Some(i);
        }
        i += 1;
    }
    None
}

/// A registry of steps and of the edges that leave them.
///
/// `N` is what the graph holds for a step; `E` is the kind of edge. The graph
/// keeps one step per key, and for each key the edges that leave it in the
/// order in which they were added.
pub struct Graph<N, E> {
    nodes: Vec<(NodeKey, N)>,
    edges: Vec<(NodeKey, Vec<E>)>,
}

impl<N, E: Edge> Graph<N, E> {
    /// The step registered under `key`.
    pub closed spec fn step(&self, key: KeyView) -> Option<N> {
        let keys = row_keys(self.nodes@);
        if keys.contains(key) {
            Some(self.nodes@[keys.index_of(key)].1)
        } else {
            None
        }
    }

    /// The edges that leave `key`, in the order in which they were added.
    pub closed spec fn out_edges(&self, key: KeyView) -> Seq<E> {
        let keys = row_keys(self.edges@);
        if keys.contains(key) {
            self.edges@[keys.index_of(key)].1@
        } else {
            Seq::empty()
        }
    }

    /// No key has two rows.
    pub closed spec fn rows_distinct(&self) -> bool {
        &&& row_keys(self.nodes@).no_duplicates()
        &&& row_keys(self.edges@).no_duplicates()
    }

    /// The graph's invariant: its tables are in order and every edge is.
    pub open spec fn wf(&self) -> bool {
        &&& self.rows_distinct()
        &&& forall|key: KeyView, i: int|
            0 <= i < self.out_edges(key).len() ==> (#[trigger] self.out_edges(key)[i]).wf()
    }

    /// An edge of `from` names `to` among its static destinations. `End` has
    /// no successor, whatever edges were added to it.
    pub open spec fn points_to(&self, from: KeyView, to: KeyView) -> bool {
        from != KeyView::End && exists|i: int|
            0 <= i < self.out_edges(from).len() && (#[trigger] self.out_edges(from)[i]).targets().contains(
                to,
            )
    }

    /// `path` starts at `Start` and follows declared edges.
    pub open spec fn is_path(&self, path: Seq<KeyView>) -> bool {
        &&& path.len() > 0
        &&& path[0] == KeyView::Start
        &&& forall|i: int| 0 <= i < path.len() - 1 ==> self.points_to(#[trigger] path[i], path[i + 1])
    }

    /// A declared path leads from `Start` to `key`.
    pub open spec fn reachable(&self, key: KeyView) -> bool {
        exists|path: Seq<KeyView>| #[trigger] self.is_path(path) && path.last() == key
    }

    /// A declared path of at most `steps` edges leads from `Start` to `key`.
    pub open spec fn near(&self, key: KeyView, steps: nat) -> bool {
        exists|path: Seq<KeyView>|
            #[trigger] self.is_path(path) && path.last() == key && path.len() <= steps + 1
    }

    /// `key` is a reachable step other than `End` without any out-edge.
    pub open spec fn lacks_out_edge(&self, key: KeyView) -> bool {
        &&& self.reachable(key)
        &&& key != KeyView::End
        &&& self.out_edges(key).len() == 0
    }

    /// Edge `i` of the reachable step `key` has no destination.
    pub open spec fn has_empty_edge(&self, key: KeyView, i: int) -> bool {
        &&& self.reachable(key)
        &&& key != KeyView::End
        &&& 0 <= i < self.out_edges(key).len()
        &&& self.out_edges(key)[i].targets() == Set::<KeyView>::empty()
    }

    /// Edge `i` of the reachable step `key` names `Start` as a destination.
    pub open spec fn points_back(&self, key: KeyView, i: int) -> bool {
        &&& self.reachable(key)
        &&& key != KeyView::End
        &&& 0 <= i < self.out_edges(key).len()
        &&& self.out_edges(key)[i].targets().contains(KeyView::Start)
    }

    /// `key` is `End`, or has out-edges, each with a destination and none
    /// with `Start` as one.
    pub open spec fn sound_at(&self, key: KeyView) -> bool {
        key == KeyView::End || (self.out_edges(key).len() > 0 && forall|i: int|
            0 <= i < self.out_edges(key).len() ==> (#[trigger] self.out_edges(key)[i]).targets()
                != Set::<KeyView>::empty() && !self.out_edges(key)[i].targets().contains(
                KeyView::Start,
            ))
    }

    /// Every reachable step is sound.
    pub open spec fn sound(&self) -> bool {
        forall|key: KeyView| #[trigger] self.reachable(key) ==> self.sound_at(key)
    }

    /// The graph may run: every reachable step is sound and `End` is reachable.
    pub open spec fn valid(&self) -> bool {
        self.sound() && self.reachable(KeyView::End)
    }

    /// Edge `i` is the first edge of `key` that has no destination or names
    /// `Start` as one.
    pub open spec fn first_unsound_edge(&self, key: KeyView, i: int) -> bool {
        &&& 0 <= i < self.out_edges(key).len()
        &&& self.out_edges(key)[i].targets() == Set::<KeyView>::empty() || self.out_edges(
            key,
        )[i].targets().contains(KeyView::Start)
        &&& forall|j: int|
            0 <= j < i ==> (#[trigger] self.out_edges(key)[j]).targets() != Set::<KeyView>::empty()
                && !self.out_edges(key)[j].targets().contains(KeyView::Start)
    }

    /// `error` reports the defect of the step `key`: that it has no out-edge,
    /// or else what is wrong with the first of its edges that has no
    /// destination or names `Start` as one.
    pub open spec fn defect_at(&self, key: KeyView, error: GraphError) -> bool {
        &&& key != KeyView::End
        &&& match error {
            GraphError::MissingOutEdge(named) => named@ == key && self.out_edges(key).len() == 0,
            GraphError::EmptyEdge { from, description } => from@ == key && exists|i: int|
                #[trigger] self.first_unsound_edge(key, i) && self.out_edges(key)[i].targets()
                    == Set::<KeyView>::empty() && description@ == self.out_edges(key)[i].label(),
            GraphError::PointToStart => exists|i: int|
                #[trigger] self.first_unsound_edge(key, i) && self.out_edges(key)[i].targets()
                    != Set::<KeyView>::empty(),
            _ => false,
        }
    }

    /// Every step that fewer than `steps` edges lead to is sound.
    pub open spec fn sound_within(&self, steps: nat) -> bool {
        forall|key: KeyView, n: nat| n < steps && #[trigger] self.near(key, n) ==> self.sound_at(key)
    }

    /// No step that is not sound lies nearer to `Start` than `key`: some
    /// number of edges leads to `key`, and every step that fewer edges lead
    /// to is sound.
    pub open spec fn nearest_defect(&self, key: KeyView) -> bool {
        exists|steps: nat| #[trigger] self.near(key, steps) && self.sound_within(steps)
    }

    /// What validation may report for this graph.
    ///
    /// It succeeds only for a valid graph. It reports `UnreachableEndNode`
    /// only where every reachable step is sound and no path ends in `End`.
    /// Any other failure reports the defect of a step that is not sound and
    /// that no other such step is nearer to `Start` than.
    pub open spec fn check_outcome(&self, outcome: Result<(), GraphError>) -> bool {
        match outcome {
            Ok(()) => self.valid(),
            Err(GraphError::UnreachableEndNode) => self.sound() && !self.reachable(KeyView::End),
            Err(error) => exists|key: KeyView|
                #[trigger] self.defect_at(key, error) && self.nearest_defect(key),
        }
    }

    /// Every key that a path can pass.
    pub closed spec fn universe(&self) -> Set<KeyView> {
        row_targets(self.edges@).insert(KeyView::Start)
    }

    /// The rows of the edge table are the out-edges of their keys.
    proof fn lemma_rows(&self)
        requires
            self.rows_distinct(),
        ensures
            forall|r: int|
                0 <= r < self.edges@.len() ==> self.out_edges((#[trigger] self.edges@[r]).0@)
                    == self.edges@[r].1@,
            forall|r: int|
                0 <= r < self.nodes@.len() ==> self.step((#[trigger] self.nodes@[r]).0@) == Some(
                    self.nodes@[r].1,
                ),
    {
        assert forall|r: int| 0 <= r < self.edges@.len() implies self.out_edges(
            (#[trigger] self.edges@[r]).0@,
        ) == self.edges@[r].1@ by {
            lemma_slot(row_keys(self.edges@), r);
        }
        assert forall|r: int| 0 <= r < self.nodes@.len() implies self.step(
            (#[trigger] self.nodes@[r]).0@,
        ) == Some(self.nodes@[r].1) by {
            lemma_slot(row_keys(self.nodes@), r);
        }
    }

    /// `Start` is reachable.
    pub proof fn lemma_start_reachable(&self)
        ensures
            self.reachable(KeyView::Start),
    {
        let path = seq![KeyView::Start];
        assert(self.is_path(path));
        assert(path.last() == KeyView::Start);
    }

    /// A successor of a reachable key is reachable.
    pub proof fn lemma_reach_step(&self, from: KeyView, to: KeyView)
        requires
            self.reachable(from),
            self.points_to(from, to),
        ensures
            self.reachable(to),
    {
        let path = choose|path: Seq<KeyView>| #[trigger] self.is_path(path) && path.last() == from;
        let longer = path.push(to);
        assert forall|i: int| 0 <= i < longer.len() - 1 implies self.points_to(
            #[trigger] longer[i],
            longer[i + 1],
        ) by {
            if i < path.len() - 1 {
                assert(self.points_to(path[i], path[i + 1]));
            }
        }
        assert(self.is_path(longer));
        assert(longer.last() == to);
    }

    /// No edge at all leads to `Start`.
    pub proof fn lemma_near_start(&self)
        ensures
            self.near(KeyView::Start, 0),
    {
        let path = seq![KeyView::Start];
        assert(self.is_path(path));
        assert(path.last() == KeyView::Start);
    }

    /// One edge more leads to a successor.
    pub proof fn lemma_near_step(&self, from: KeyView, to: KeyView, steps: nat)
        requires
            self.near(from, steps),
            self.points_to(from, to),
        ensures
            self.near(to, steps + 1),
    {
        let path = choose|path: Seq<KeyView>|
            #[trigger] self.is_path(path) && path.last() == from && path.len() <= steps + 1;
        let longer = path.push(to);
        assert forall|i: int| 0 <= i < longer.len() - 1 implies self.points_to(
            #[trigger] longer[i],
            longer[i + 1],
        ) by {
            if i < path.len() - 1 {
                assert(self.points_to(path[i], path[i + 1]));
            }
        }
        assert(self.is_path(longer));
        assert(longer.last() == to);
    }

    /// What some edges lead to, more edges lead to as well; and it is
    /// reachable.
    pub proof fn lemma_near_more(&self, key: KeyView, steps: nat, more: nat)
        requires
            self.near(key, steps),
            steps <= more,
        ensures
            self.near(key, more),
            self.reachable(key),
    {
        let path = choose|path: Seq<KeyView>|
            #[trigger] self.is_path(path) && path.last() == key && path.len() <= steps + 1;
        assert(self.is_path(path) && path.last() == key && path.len() <= more + 1);
    }

    /// What a number of edges leads to is led to by fewer, or is the
    /// successor of a step that fewer lead to.
    pub proof fn lemma_near_back(&self, key: KeyView, steps: nat)
        requires
            self.near(key, steps + 1),
        ensures
            self.near(key, steps) || exists|from: KeyView|
                self.near(from, steps) && #[trigger] self.points_to(from, key),
    {
        let path = choose|path: Seq<KeyView>|
            #[trigger] self.is_path(path) && path.last() == key && path.len() <= steps + 2;
        if path.len() <= steps + 1 {
        } else {
            let shorter = path.drop_last();
            assert forall|i: int| 0 <= i < shorter.len() - 1 implies self.points_to(
                #[trigger] shorter[i],
                shorter[i + 1],
            ) by {
                assert(self.points_to(path[i], path[i + 1]));
            }
            assert(self.is_path(shorter));
            let from = shorter.last();
            assert(self.is_path(shorter) && shorter.last() == from && shorter.len() <= steps + 1);
            let i = path.len() - 2;
            assert(self.points_to(path[i], path[i + 1]));
            assert(self.near(from, steps) && self.points_to(from, key));
        }
    }

    /// A set that holds `Start` and is closed under the declared edges
    /// holds the end of every path.
    pub proof fn lemma_closed_holds_path(&self, closed: Set<KeyView>, path: Seq<KeyView>)
        requires
            closed.contains(KeyView::Start),
            forall|from: KeyView, to: KeyView|
                closed.contains(from) && #[trigger] self.points_to(from, to) ==> closed.contains(to),
            self.is_path(path),
        ensures
            closed.contains(path.last()),
        decreases path.len(),
    {
        if path.len() > 1 {
            let shorter = path.drop_last();
            assert forall|i: int| 0 <= i < shorter.len() - 1 implies self.points_to(
                #[trigger] shorter[i],
                shorter[i + 1],
            ) by {
                assert(self.points_to(path[i], path[i + 1]));
            }
            self.lemma_closed_holds_path(closed, shorter);
            let i = path.len() - 2;
            assert(self.points_to(path[i], path[i + 1]));
        }
    }

    /// The universe is finite and holds every reachable key.
    proof fn lemma_universe(&self)
        requires
            self.wf(),
        ensures
            self.universe().finite(),
            forall|key: KeyView| #[trigger] self.reachable(key) ==> self.universe().contains(key),
    {
        self.lemma_rows();
        let rows = self.edges@;
        assert forall|r: int, i: int| 0 <= r < rows.len() && 0 <= i < rows[r].1@.len() implies (
        #[trigger] rows[r].1@[i]).wf() by {
            assert(self.out_edges(rows[r].0@)[i].wf());
        }
        lemma_row_targets(rows);
        assert forall|from: KeyView, to: KeyView|
            self.universe().contains(from) && #[trigger] self.points_to(
                from,
                to,
            ) implies self.universe().contains(to) by {
            let i = choose|i: int|
                0 <= i < self.out_edges(from).len() && (#[trigger] self.out_edges(
                    from,
                )[i]).targets().contains(to);
            let r = row_keys(rows).index_of(from);
            assert(rows[r].1@[i].targets().contains(to));
        }
        assert forall|key: KeyView| #[trigger] self.reachable(key) implies self.universe().contains(
            key,
        ) by {
            let path = choose|path: Seq<KeyView>| #[trigger] self.is_path(path) && path.last() == key;
            self.lemma_closed_holds_path(self.universe(), path);
        }
    }

    /// The graph without steps and edges.
    pub fn new() -> (graph: Self)
        ensures
            graph.wf(),
            forall|key: KeyView| graph.step(key) is None,
            forall|key: KeyView| graph.out_edges(key) == Seq::<E>::empty(),
    {
        let graph = Graph { nodes: Vec::new(), edges: Vec::new() };
        assert(row_keys(graph.nodes@) =~= Seq::<KeyView>::empty());
        assert(row_keys(graph.edges@) =~= Seq::<KeyView>::empty());
        graph
    }

    /// Appends `edge` to the out-edges of `from`.
    pub fn add_edge(&mut self, from: NodeKey, edge: E) -> (graph: &mut Self)
        requires
            old(self).wf(),
            edge.wf(),
        ensures
            graph.wf(),
            graph.out_edges(from@) == old(self).out_edges(from@).push(edge),
            forall|key: KeyView| key != from@ ==> graph.out_edges(key) == old(self).out_edges(key),
            forall|key: KeyView| graph.step(key) == old(self).step(key),
            *final(self) == *final(graph),
    {
        let ghost before = *self;
        let ghost keys = row_keys(before.edges@);
        match find_row(&self.edges, &from) {
            Some(r) => {
                self.edges[r].1.push(edge);
                proof {
                    assert(row_keys(self.edges@) =~= keys);
                    lemma_slot(keys, r as int);
                    assert forall|key: KeyView| key != from@ implies self.out_edges(key)
                        == before.out_edges(key) by {
                        if keys.contains(key) {
                            assert(keys.index_of(key) != r);
                        }
                    }
                }
            },
            None => {
                let mut list: Vec<E> = Vec::new();
                list.push(edge);
                self.edges.push((from, list));
                proof {
                    let n = keys.len() as int;
                    assert(row_keys(self.edges@) =~= keys.push(from@));
                    assert(row_keys(self.edges@).no_duplicates()) by {
                        assert forall|i: int, j: int|
                            0 <= i < n + 1 && 0 <= j < n + 1 && i != j implies keys.push(from@)[i]
                            != keys.push(from@)[j] by {
                            if i < n && j < n {
                            } else if i < n {
                                assert(keys.contains(keys[i]));
                            } else {
                                assert(keys.contains(keys[j]));
                            }
                        }
                    }
                    lemma_slot(row_keys(self.edges@), n);
                    assert(self.out_edges(from@) =~= before.out_edges(from@).push(edge));
                    assert forall|key: KeyView| key != from@ implies self.out_edges(key)
                        == before.out_edges(key) by {
                        if keys.contains(key) {
                            let at = keys.index_of(key);
                            assert(row_keys(self.edges@)[at] == key);
                            lemma_slot(row_keys(self.edges@), at);
                        } else if row_keys(self.edges@).contains(key) {
                            let at = row_keys(self.edges@).index_of(key);
                            assert(keys[at] == key);
                        }
                    }
                }
            },
        }
        proof {
            assert forall|key: KeyView, i: int| 0 <= i < self.out_edges(key).len() implies (
            #[trigger] self.out_edges(key)[i]).wf() by {
                if key == from@ {
                    if i < before.out_edges(key).len() {
                        assert(self.out_edges(key)[i] == before.out_edges(key)[i]);
                    }
                } else {
                    assert(self.out_edges(key)[i] == before.out_edges(key)[i]);
                }
            }
        }
        self
    }

    /// Registers `node` as the step `key`, in place of an earlier one.
    pub fn add_node(&mut self, key: NodeKey, node: N) -> (graph: &mut Self)
        requires
            old(self).wf(),
        ensures
            graph.wf(),
            graph.step(key@) == Some(node),
            forall|other: KeyView| other != key@ ==> graph.step(other) == old(self).step(other),
            forall|from: KeyView| graph.out_edges(from) == old(self).out_edges(from),
            *final(self) == *final(graph),
    {
        let ghost before = *self;
        let ghost keys = row_keys(before.nodes@);
        match find_row(&self.nodes, &key) {
            Some(r) => {
                self.nodes[r].1 = node;
                proof {
                    assert(row_keys(self.nodes@) =~= keys);
                    lemma_slot(keys, r as int);
                    assert forall|other: KeyView| other != key@ implies self.step(other)
                        == before.step(other) by {
                        if keys.contains(other) {
                            assert(keys.index_of(other) != r);
                        }
                    }
                }
            },
            None => {
                self.nodes.push((key, node));
                proof {
                    let n = keys.len() as int;
                    assert(row_keys(self.nodes@) =~= keys.push(key@));
                    assert(row_keys(self.nodes@).no_duplicates()) by {
                        assert forall|i: int, j: int|
                            0 <= i < n + 1 && 0 <= j < n + 1 && i != j implies keys.push(key@)[i]
                            != keys.push(key@)[j] by {
                            if i < n && j < n {
                            } else if i < n {
                                assert(keys.contains(keys[i]));
                            } else {
                                assert(keys.contains(keys[j]));
                            }
                        }
                    }
                    lemma_slot(row_keys(self.nodes@), n);
                    assert forall|other: KeyView| other != key@ implies self.step(other)
                        == before.step(other) by {
                        if keys.contains(other) {
                            let at = keys.index_of(other);
                            assert(row_keys(self.nodes@)[at] == other);
                            lemma_slot(row_keys(self.nodes@), at);
                        } else if row_keys(self.nodes@).contains(other) {
                            let at = row_keys(self.nodes@).index_of(other);
                            assert(keys[at] == other);
                        }
                    }
                }
            },
        }
        proof {
            assert(self.edges@ == before.edges@);
            assert forall|from: KeyView| self.out_edges(from) == before.out_edges(from) by {}
            assert forall|from: KeyView, i: int| 0 <= i < self.out_edges(from).len() implies (
            #[trigger] self.out_edges(from)[i]).wf() by {
                assert(self.out_edges(from)[i] == before.out_edges(from)[i]);
            }
        }
        self
    }

    /// The step registered under `key`.
    pub fn node(&self, key: &NodeKey) -> (found: Option<&N>)
        requires
            self.wf(),
        ensures
            match found {
                Some(node) => self.step(key@) == Some(*node),
                None => self.step(key@) is None,
            },
    {
        match find_row(&self.nodes, key) {
            Some(r) => {
                proof {
                    self.lemma_rows();
                }
                Some(&self.nodes[r].1)
            },
            None => None,
        }
    }

    /// The edges that leave `key`.
    pub fn edges_from(&self, key: &NodeKey) -> (found: Option<&Vec<E>>)
        requires
            self.wf(),
        ensures
            match found {
                Some(edges) => edges@ == self.out_edges(key@),
                None => self.out_edges(key@).len() == 0,
            },
    {
        match find_row(&self.edges, key) {
            Some(r) => {
                proof {
                    self.lemma_rows();
                }
                Some(&self.edges[r].1)
            },
            None => None,
        }
    }
}

/// Puts every member of `near` that `checked` lacks at the end of `frontier`.
fn enqueue(near: &KeySet, checked: &KeySet, frontier: &mut Vec<NodeKey>)
    ensures
        old(frontier)@.len() <= final(frontier)@.len(),
        forall|i: int| 0 <= i < old(frontier)@.len() ==> final(frontier)@[i] == old(frontier)@[i],
        forall|i: int|
            old(frontier)@.len() <= i < final(frontier)@.len() ==> near@.contains(
                (#[trigger] final(frontier)@[i])@,
            ),
        forall|to: KeyView|
            near@.contains(to) ==> checked@.contains(to) || waiting(final(frontier)@).contains(to),
{
    let ghost start = frontier@;
    let mut t: usize = 0;
    while t < near.len()
        invariant
            t <= near.order().len(),
            start.len() <= frontier@.len(),
            forall|i: int| 0 <= i < start.len() ==> frontier@[i] == start[i],
            forall|i: int|
                start.len() <= i < frontier@.len() ==> near@.contains((#[trigger] frontier@[i])@),
            forall|s: int|
                0 <= s < t ==> checked@.contains(#[trigger] near.order()[s]) || waiting(
                    frontier@,
                ).contains(near.order()[s]),
        decreases near.order().len() - t,
    {
        let to = near.get(t);
        assert(near.order().contains(near.order()[t as int]));
        if !checked.contains(to) {
            let ghost before = frontier@;
            frontier.push(to.clone());
            proof {
                let last = frontier@.len() - 1;
                assert(frontier@[last]@ == to@);
                assert(waiting(frontier@).contains(to@));
                assert forall|s: int| 0 <= s < t implies checked@.contains(
                    #[trigger] near.order()[s],
                ) || waiting(frontier@).contains(near.order()[s]) by {
                    if waiting(before).contains(near.order()[s]) {
                        let i = choose|i: int|
                            0 <= i < before.len() && (#[trigger] before[i])@ == near.order()[s];
                        assert(frontier@[i]@ == near.order()[s]);
                    }
                }
            }
        }
        t += 1;
    }
    proof {
        assert forall|to: KeyView| near@.contains(to) implies checked@.contains(to) || waiting(
            frontier@,
        ).contains(to) by {
            let s = near.order().index_of(to);
            assert(near.order()[s] == to);
        }
    }
}

impl<N, E: Edge> Graph<N, E> {
    /// Examines the out-edges of the reachable step `key`, and puts those of
    /// its successors that `checked` lacks at the end of `frontier`.
    fn examine(&self, key: &NodeKey, checked: &KeySet, frontier: &mut Vec<NodeKey>) -> (outcome:
        Result<(), GraphError>)
        requires
            self.wf(),
            key@ != KeyView::End,
            self.reachable(key@),
        ensures
            match outcome {
                Ok(()) => {
                    &&& self.sound_at(key@)
                    &&& old(frontier)@.len() <= final(frontier)@.len()
                    &&& forall|i: int|
                        0 <= i < old(frontier)@.len() ==> final(frontier)@[i] == old(frontier)@[i]
                    &&& forall|i: int|
                        old(frontier)@.len() <= i < final(frontier)@.len() ==> self.points_to(
                            key@,
                            (#[trigger] final(frontier)@[i])@,
                        )
                    &&& forall|to: KeyView| #[trigger]
                        self.points_to(key@, to) ==> checked@.contains(to) || waiting(
                            final(frontier)@,
                        ).contains(to)
                },
                Err(error) => self.defect_at(key@, error),
            },
    {
        let ghost start = frontier@;
        let edges = match self.edges_from(key) {
            Some(edges) => edges,
            None => {
                return Err(GraphError::MissingOutEdge(key.clone()));
            },
        };
        if edges.len() == 0 {
            return Err(GraphError::MissingOutEdge(key.clone()));
        }
        let mut j: usize = 0;
        while j < edges.len()
            invariant
                j <= edges.len(),
                self.wf(),
                key@ != KeyView::End,
                self.reachable(key@),
                edges@ == self.out_edges(key@),
                start.len() <= frontier@.len(),
                forall|i: int| 0 <= i < start.len() ==> frontier@[i] == start[i],
                forall|i: int|
                    start.len() <= i < frontier@.len() ==> self.points_to(
                        key@,
                        (#[trigger] frontier@[i])@,
                    ),
                forall|e: int|
                    0 <= e < j ==> (#[trigger] edges@[e]).targets() != Set::<KeyView>::empty()
                        && !edges@[e].targets().contains(KeyView::Start),
                forall|e: int, to: KeyView|
                    0 <= e < j && (#[trigger] edges@[e]).targets().contains(to)
                        ==> checked@.contains(to) || #[trigger] waiting(frontier@).contains(to),
            decreases edges.len() - j,
        {
            assert(self.out_edges(key@)[j as int].wf());
            let near = edges[j].neighbours();
            if near.is_empty() {
                let description = edges[j].description();
                assert(self.first_unsound_edge(key@, j as int));
                return Err(GraphError::EmptyEdge { from: key.clone(), description });
            }
            if near.contains(&NodeKey::Start) {
                assert(self.first_unsound_edge(key@, j as int));
                return Err(GraphError::PointToStart);
            }
            let ghost before = frontier@;
            enqueue(&near, checked, frontier);
            proof {
                assert forall|i: int| start.len() <= i < frontier@.len() implies self.points_to(
                    key@,
                    (#[trigger] frontier@[i])@,
                ) by {
                    if i < before.len() {
                        assert(frontier@[i] == before[i]);
                    } else {
                        assert(edges@[j as int].targets().contains(frontier@[i]@));
                    }
                }
                assert forall|e: int, to: KeyView|
                    0 <= e < j + 1 && (#[trigger] edges@[e]).targets().contains(
                        to,
                    ) implies checked@.contains(to) || #[trigger] waiting(frontier@).contains(to) by {
                    if e < j {
                        if waiting(before).contains(to) {
                            let i = choose|i: int|
                                0 <= i < before.len() && (#[trigger] before[i])@ == to;
                            assert(frontier@[i]@ == to);
                        }
                    }
                }
            }
            j += 1;
        }
        proof {
            assert forall|to: KeyView| #[trigger] self.points_to(key@, to) implies checked@.contains(
                to,
            ) || waiting(frontier@).contains(to) by {
                let e = choose|e: int|
                    0 <= e < self.out_edges(key@).len() && (#[trigger] self.out_edges(
                        key@,
                    )[e]).targets().contains(to);
                assert(edges@[e].targets().contains(to));
            }
        }
        Ok(())
    }

    /// What holds between two visits of the search: what was checked is
    /// reachable and sound, what waits is reachable, and every successor of a
    /// checked step is checked or waits.
    pub open spec fn searching(&self, checked: Set<KeyView>, waits: Set<KeyView>) -> bool {
        &&& forall|key: KeyView|
            checked.contains(key) ==> #[trigger] self.reachable(key) && self.sound_at(key)
        &&& forall|key: KeyView| #[trigger] waits.contains(key) ==> self.reachable(key)
        &&& forall|from: KeyView, to: KeyView|
            checked.contains(from) && #[trigger] self.points_to(from, to) ==> checked.contains(to)
                || waits.contains(to)
        &&& checked.contains(KeyView::Start) || waits.contains(KeyView::Start)
    }

    /// Dropping a waiting key that is already checked keeps the search in order.
    proof fn lemma_skip(&self, checked: Set<KeyView>, waits: Set<KeyView>, rest: Set<KeyView>, key: KeyView)
        requires
            self.searching(checked, waits),
            checked.contains(key),
            forall|other: KeyView| waits.contains(other) ==> rest.contains(other) || other == key,
            forall|other: KeyView| rest.contains(other) ==> waits.contains(other),
        ensures
            self.searching(checked, rest),
    {
        assert forall|from: KeyView, to: KeyView|
            checked.contains(from) && #[trigger] self.points_to(from, to) implies checked.contains(to)
            || rest.contains(to) by {
            if waits.contains(to) && !rest.contains(to) {
                assert(to == key);
            }
        }
        assert forall|other: KeyView| #[trigger] rest.contains(other) implies self.reachable(
            other,
        ) by {
            assert(waits.contains(other));
        }
    }

    /// Marking a waiting key as checked keeps the search in order, once the
    /// key is known to be sound and its successors wait.
    proof fn lemma_visit(
        &self,
        checked: Set<KeyView>,
        waits: Set<KeyView>,
        grown: Set<KeyView>,
        key: KeyView,
    )
        requires
            self.searching(checked, waits),
            waits.contains(key),
            self.sound_at(key),
            forall|other: KeyView| waits.contains(other) ==> grown.contains(other) || other == key,
            forall|other: KeyView|
                grown.contains(other) ==> waits.contains(other) || self.points_to(key, other),
            forall|to: KeyView| #[trigger]
                self.points_to(key, to) ==> checked.contains(to) || grown.contains(to),
        ensures
            self.searching(checked.insert(key), grown),
    {
        let more = checked.insert(key);
        assert forall|other: KeyView| #[trigger] grown.contains(other) implies self.reachable(
            other,
        ) by {
            if !waits.contains(other) {
                self.lemma_reach_step(key, other);
            }
        }
        assert forall|from: KeyView, to: KeyView|
            more.contains(from) && #[trigger] self.points_to(from, to) implies more.contains(to)
            || grown.contains(to) by {
            if from != key {
                assert(checked.contains(from));
            }
        }
    }

    /// Once nothing waits, everything reachable has been checked.
    proof fn lemma_search_done(&self, checked: Set<KeyView>, waits: Set<KeyView>)
        requires
            self.searching(checked, waits),
            forall|key: KeyView| !waits.contains(key),
        ensures
            self.sound(),
            self.reachable(KeyView::End) == checked.contains(KeyView::End),
    {
        assert forall|key: KeyView| #[trigger] self.reachable(key) implies checked.contains(key) by {
            let path = choose|path: Seq<KeyView>| #[trigger] self.is_path(path) && path.last() == key;
            self.lemma_closed_holds_path(checked, path);
        }
    }

    /// Visits every key of `frontier`: marks it as checked, unless it is
    /// already, after its out-edges have been examined. Returns the keys to
    /// visit next: the successors that were not checked when they were met.
    fn visit_all(
        &self,
        frontier: &Vec<NodeKey>,
        checked: &mut KeySet,
        Ghost(steps): Ghost<nat>,
    ) -> (outcome: Result<Vec<NodeKey>, GraphError>)
        requires
            self.wf(),
            old(checked).wf(),
            self.searching(old(checked)@, waiting(frontier@)),
            self.sound_within(steps),
            forall|key: KeyView| #[trigger] waiting(frontier@).contains(key) ==> self.near(key, steps),
        ensures
            match outcome {
                Ok(next) => {
                    &&& final(checked).wf()
                    &&& self.searching(final(checked)@, waiting(next@))
                    &&& old(checked)@.subset_of(final(checked)@)
                    &&& waiting(frontier@).subset_of(final(checked)@)
                    &&& next@.len() > 0 ==> final(checked)@ != old(checked)@
                    &&& forall|key: KeyView| #[trigger]
                        waiting(next@).contains(key) ==> self.near(key, steps + 1)
                },
                Err(GraphError::UnreachableEndNode) => false,
                Err(error) => self.check_outcome(Err(error)),
            },
    {
        let mut next: Vec<NodeKey> = Vec::new();
        let mut i: usize = 0;
        proof {
            assert(waiting(next@) =~= Set::<KeyView>::empty());
            assert(waiting(frontier@.subrange(0, frontier@.len() as int)).union(waiting(next@))
                =~= waiting(frontier@)) by {
                assert(frontier@.subrange(0, frontier@.len() as int) =~= frontier@);
            }
        }
        while i < frontier.len()
            invariant
                i <= frontier.len(),
                self.wf(),
                checked.wf(),
                old(checked)@.subset_of(checked@),
                next@.len() > 0 ==> checked@ != old(checked)@,
                self.searching(
                    checked@,
                    waiting(frontier@.subrange(i as int, frontier@.len() as int)).union(
                        waiting(next@),
                    ),
                ),
                self.sound_within(steps),
                forall|key: KeyView| #[trigger]
                    waiting(frontier@).contains(key) ==> self.near(key, steps),
                forall|j: int| 0 <= j < i ==> checked@.contains((#[trigger] frontier@[j])@),
                forall|key: KeyView| #[trigger]
                    waiting(next@).contains(key) ==> self.near(key, steps + 1),
            decreases frontier.len() - i,
        {
            let ghost seen = checked@;
            let ghost rest = frontier@.subrange(i as int, frontier@.len() as int);
            let ghost less = frontier@.subrange(i as int + 1, frontier@.len() as int);
            let ghost queued = next@;
            let key = frontier[i].clone();
            proof {
                assert(rest[0] == frontier@[i as int]);
                assert(waiting(rest).contains(key@));
                assert(waiting(rest).union(waiting(queued)).contains(key@));
                assert(self.reachable(key@));
                assert(waiting(frontier@).contains(key@));
                assert(self.near(key@, steps));
                assert forall|other: KeyView| waiting(rest).contains(other) implies waiting(
                    less,
                ).contains(other) || other == key@ by {
                    let j = choose|j: int| 0 <= j < rest.len() && (#[trigger] rest[j])@ == other;
                    if j > 0 {
                        assert(less[j - 1] == rest[j]);
                    }
                }
                assert forall|other: KeyView| waiting(less).contains(other) implies waiting(
                    rest,
                ).contains(other) by {
                    let j = choose|j: int| 0 <= j < less.len() && (#[trigger] less[j])@ == other;
                    assert(rest[j + 1] == less[j]);
                }
            }
            if checked.contains(&key) {
                proof {
                    self.lemma_skip(
                        seen,
                        waiting(rest).union(waiting(queued)),
                        waiting(less).union(waiting(queued)),
                        key@,
                    );
                }
            } else {
                if !key.is_end() {
                    match self.examine(&key, checked, &mut next) {
                        Ok(()) => {},
                        Err(error) => {
                            assert(self.defect_at(key@, error) && self.nearest_defect(key@));
                            return Err(error);
                        },
                    }
                }
                proof {
                    assert forall|other: KeyView| #[trigger]
                        waiting(next@).contains(other) implies self.near(other, steps + 1) by {
                        let j = choose|j: int|
                            0 <= j < next@.len() && (#[trigger] next@[j])@ == other;
                        if j < queued.len() {
                            assert(next@[j] == queued[j]);
                            assert(waiting(queued).contains(other));
                        } else {
                            self.lemma_near_step(key@, other, steps);
                        }
                    }
                    assert forall|other: KeyView| waiting(queued).contains(other) implies waiting(
                        next@,
                    ).contains(other) by {
                        let j = choose|j: int|
                            0 <= j < queued.len() && (#[trigger] queued[j])@ == other;
                        assert(next@[j] == queued[j]);
                    }
                    assert forall|other: KeyView| waiting(next@).contains(other) implies waiting(
                        queued,
                    ).contains(other) || self.points_to(key@, other) by {
                        let j = choose|j: int|
                            0 <= j < next@.len() && (#[trigger] next@[j])@ == other;
                        if j < queued.len() {
                            assert(next@[j] == queued[j]);
                        }
                    }
                    self.lemma_visit(
                        seen,
                        waiting(rest).union(waiting(queued)),
                        waiting(less).union(waiting(next@)),
                        key@,
                    );
                }
                checked.insert(key);
                proof {
                    assert(checked@.contains(key@) && !seen.contains(key@));
                }
            }
            i += 1;
        }
        proof {
            assert forall|key: KeyView| waiting(frontier@).contains(key) implies checked@.contains(
                key,
            ) by {
                let j = choose|j: int| 0 <= j < frontier@.len() && (#[trigger] frontier@[j])@ == key;
            }
            assert(waiting(frontier@.subrange(frontier@.len() as int, frontier@.len() as int))
                =~= Set::<KeyView>::empty());
            assert(waiting(frontier@.subrange(frontier@.len() as int, frontier@.len() as int)).union(
                waiting(next@),
            ) =~= waiting(next@));
        }
        Ok(next)
    }

    /// Validates the graph by a breadth-first search from `Start` along the
    /// declared edges: the keys of one frontier are visited, and the
    /// successors met on the way form the next.
    ///
    /// Succeeds exactly when every reachable step is sound and `End` is
    /// reachable. A failure reports a defect that the graph really has:
    /// `UnreachableEndNode` that all reachable steps are sound while no path
    /// ends in `End`; any other failure the defect of a step that is not
    /// sound and that no other such step is nearer to `Start` than:
    /// `MissingOutEdge` that it has no out-edge, and otherwise `EmptyEdge` or
    /// `PointToStart` for the first of its edges that has no destination or
    /// names `Start`.
    pub fn check(&self) -> (outcome: Result<(), GraphError>)
        requires
            self.wf(),
        ensures
            self.check_outcome(outcome),
            outcome is Ok <==> self.valid(),
    {
        let mut checked = KeySet::new();
        let mut frontier: Vec<NodeKey> = Vec::new();
        frontier.push(NodeKey::Start);
        let ghost mut steps: nat = 0;
        proof {
            self.lemma_start_reachable();
            self.lemma_near_start();
            self.lemma_universe();
            checked.lemma_cardinality();
            assert(frontier@[0]@ == KeyView::Start);
            assert(waiting(frontier@).contains(KeyView::Start));
            assert forall|key: KeyView| #[trigger]
                waiting(frontier@).contains(key) implies self.reachable(key) && self.near(
                key,
                0,
            ) by {
                let j = choose|j: int| 0 <= j < frontier@.len() && (#[trigger] frontier@[j])@ == key;
            }
            assert forall|key: KeyView| #[trigger] self.near(key, 0) implies waiting(
                frontier@,
            ).contains(key) by {
                let path = choose|path: Seq<KeyView>|
                    #[trigger] self.is_path(path) && path.last() == key && path.len() <= 1;
                assert(key == KeyView::Start);
            }
        }
        while frontier.len() > 0
            invariant
                self.wf(),
                checked.wf(),
                self.universe().finite(),
                checked@.finite(),
                checked@.subset_of(self.universe()),
                self.searching(checked@, waiting(frontier@)),
                forall|key: KeyView| #[trigger]
                    waiting(frontier@).contains(key) ==> self.near(key, steps),
                forall|key: KeyView| #[trigger]
                    self.near(key, steps) ==> checked@.contains(key) || waiting(
                        frontier@,
                    ).contains(key),
                forall|key: KeyView, n: nat|
                    n < steps && #[trigger] self.near(key, n) ==> checked@.contains(key),
            decreases self.universe().len() - checked@.len(), frontier@.len(),
        {
            let ghost seen = checked@;
            proof {
                vstd::set_lib::lemma_len_subset(seen, self.universe());
                assert forall|key: KeyView, n: nat|
                    n < steps && #[trigger] self.near(key, n) implies self.sound_at(key) by {
                    self.lemma_near_more(key, n, n);
                    assert(checked@.contains(key));
                }
            }
            let next = match self.visit_all(&frontier, &mut checked, Ghost(steps)) {
                Ok(next) => next,
                Err(error) => {
                    proof {
                        self.lemma_not_valid(Err(error));
                    }
                    return Err(error);
                },
            };
            proof {
                self.lemma_universe();
                checked.lemma_cardinality();
                assert forall|other: KeyView| checked@.contains(other) implies self.universe().contains(
                    other,
                ) by {
                    assert(self.reachable(other));
                }
                vstd::set_lib::lemma_len_subset(checked@, self.universe());
                vstd::set_lib::lemma_len_subset(seen, checked@);
                if checked@.len() == seen.len() {
                    vstd::set_lib::lemma_subset_equality(seen, checked@);
                }
                assert forall|key: KeyView, n: nat|
                    n < steps + 1 && #[trigger] self.near(key, n) implies checked@.contains(key) by {
                    self.lemma_near_more(key, n, steps);
                }
                assert forall|key: KeyView| #[trigger]
                    self.near(key, steps + 1) implies checked@.contains(key) || waiting(
                    next@,
                ).contains(key) by {
                    self.lemma_near_back(key, steps);
                    if !self.near(key, steps) {
                        let from = choose|from: KeyView|
                            self.near(from, steps) && #[trigger] self.points_to(from, key);
                        assert(checked@.contains(from));
                    }
                }
                steps = steps + 1;
            }
            frontier = next;
        }
        proof {
            assert forall|key: KeyView| !waiting(frontier@).contains(key) by {}
            self.lemma_search_done(checked@, waiting(frontier@));
        }
        if !checked.contains(&NodeKey::End) {
            proof {
                self.lemma_not_valid(Err(GraphError::UnreachableEndNode));
            }
            return Err(GraphError::UnreachableEndNode);
        }
        Ok(())
    }

    /// A graph with a defect is not valid.
    pub proof fn lemma_not_valid(&self, outcome: Result<(), GraphError>)
        requires
            outcome is Err,
            self.check_outcome(outcome),
        ensures
            !self.valid(),
    {
        if outcome != Err::<(), GraphError>(GraphError::UnreachableEndNode) {
            let error = outcome->Err_0;
            let key = choose|key: KeyView|
                #[trigger] self.defect_at(key, error) && self.nearest_defect(key);
            self.lemma_defect_is_unsound(key, error);
        }
    }

    /// A step with a defect is reachable and not sound, where no step that is
    /// not sound lies nearer to `Start`.
    pub proof fn lemma_defect_is_unsound(&self, key: KeyView, error: GraphError)
        requires
            self.defect_at(key, error),
            self.nearest_defect(key),
        ensures
            self.reachable(key),
            !self.sound_at(key),
    {
        let steps = choose|steps: nat| #[trigger] self.near(key, steps) && self.sound_within(steps);
        self.lemma_near_more(key, steps, steps);
        match error {
            GraphError::EmptyEdge { from, description } => {
                let i = choose|i: int|
                    #[trigger] self.first_unsound_edge(key, i) && self.out_edges(key)[i].targets()
                        == Set::<KeyView>::empty() && description@ == self.out_edges(
                        key,
                    )[i].label();
                assert(!self.sound_at(key));
            },
            GraphError::PointToStart => {
                let i = choose|i: int|
                    #[trigger] self.first_unsound_edge(key, i) && self.out_edges(key)[i].targets()
                        != Set::<KeyView>::empty();
                assert(!self.sound_at(key));
            },
            _ => {},
        }
    }

    /// No reachable edge is without destinations.
    pub open spec fn no_empty_edge(&self) -> bool {
        forall|key: KeyView, i: int| !#[trigger] self.has_empty_edge(key, i)
    }

    /// No reachable edge names `Start` as a destination.
    pub open spec fn no_edge_to_start(&self) -> bool {
        forall|key: KeyView, i: int| !#[trigger] self.points_back(key, i)
    }

    /// No reachable step other than `End` is without out-edges.
    pub open spec fn no_missing_out_edge(&self) -> bool {
        forall|key: KeyView| !#[trigger] self.lacks_out_edge(key)
    }

    /// `other` lies farther from `Start` than `key`: some number of edges
    /// leads to `key` and not to `other`.
    pub open spec fn farther(&self, other: KeyView, key: KeyView) -> bool {
        exists|steps: nat| #[trigger] self.near(key, steps) && !self.near(other, steps)
    }

    /// `key` is the one step nearest to `Start` that is not sound: every
    /// other reachable step that is not sound lies farther from `Start`.
    pub open spec fn only_nearest_defect(&self, key: KeyView) -> bool {
        forall|other: KeyView|
            other != key && #[trigger] self.reachable(other) && !self.sound_at(other)
                ==> self.farther(other, key)
    }

    /// Where `key` is the one step nearest to `Start` that is not sound, a
    /// failure other than `UnreachableEndNode` reports the defect of `key`.
    proof fn lemma_defect_of_nearest(&self, key: KeyView, outcome: Result<(), GraphError>)
        requires
            self.check_outcome(outcome),
            self.reachable(key),
            !self.sound_at(key),
            self.only_nearest_defect(key),
        ensures
            outcome matches Err(error) && self.defect_at(key, error),
    {
        if outcome is Ok || outcome == Err::<(), GraphError>(GraphError::UnreachableEndNode) {
            assert(self.sound());
        } else {
            let error = outcome->Err_0;
            let found = choose|found: KeyView|
                #[trigger] self.defect_at(found, error) && self.nearest_defect(found);
            self.lemma_defect_is_unsound(found, error);
            if found != key {
                let steps = choose|steps: nat|
                    #[trigger] self.near(found, steps) && self.sound_within(steps);
                let fewer = choose|fewer: nat|
                    #[trigger] self.near(key, fewer) && !self.near(found, fewer);
                if steps <= fewer {
                    self.lemma_near_more(found, steps, fewer);
                }
                assert(self.near(key, fewer) && fewer < steps);
            }
        }
    }

    /// A graph in which the reachable step `key`, which is not `End`, has no
    /// out-edge is refused. It is refused with `MissingOutEdge` naming `key`
    /// where every other reachable step that is not sound lies farther from
    /// `Start` than `key`. Where the graph has no defect of another kind, it
    /// is refused with `MissingOutEdge`, naming a step without out-edges.
    pub proof fn law_missing_out_edge(&self, key: KeyView, outcome: Result<(), GraphError>)
        requires
            self.check_outcome(outcome),
            self.lacks_out_edge(key),
        ensures
            outcome is Err,
            self.only_nearest_defect(key) ==> (outcome matches Err(
                GraphError::MissingOutEdge(found),
            ) && found@ == key),
            self.no_empty_edge() && self.no_edge_to_start() ==> (outcome matches Err(
                GraphError::MissingOutEdge(found),
            ) && self.lacks_out_edge(found@)),
    {
        assert(!self.sound_at(key));
        if self.only_nearest_defect(key) {
            self.lemma_defect_of_nearest(key, outcome);
        }
        if self.no_empty_edge() && self.no_edge_to_start() {
            assert(!self.sound());
            let error = outcome->Err_0;
            let found = choose|found: KeyView|
                #[trigger] self.defect_at(found, error) && self.nearest_defect(found);
            self.lemma_defect_is_unsound(found, error);
            match error {
                GraphError::EmptyEdge { from, description } => {
                    let i = choose|i: int|
                        #[trigger] self.first_unsound_edge(found, i) && self.out_edges(
                            found,
                        )[i].targets() == Set::<KeyView>::empty() && description@
                            == self.out_edges(found)[i].label();
                    assert(self.has_empty_edge(found, i));
                },
                GraphError::PointToStart => {
                    let i = choose|i: int|
                        #[trigger] self.first_unsound_edge(found, i) && self.out_edges(
                            found,
                        )[i].targets() != Set::<KeyView>::empty();
                    assert(self.points_back(found, i));
                },
                _ => {},
            }
        }
    }

    /// A graph is refused with `UnreachableEndNode` exactly when each of its
    /// reachable steps is sound and no declared path leads from `Start` to
    /// `End`.
    pub proof fn law_unreachable_end(&self, outcome: Result<(), GraphError>)
        requires
            self.check_outcome(outcome),
        ensures
            (outcome matches Err(GraphError::UnreachableEndNode)) <==> (self.sound()
                && !self.reachable(KeyView::End)),
            !self.reachable(KeyView::End) ==> outcome is Err,
    {
        if outcome is Err && outcome != Err::<(), GraphError>(GraphError::UnreachableEndNode) {
            let error = outcome->Err_0;
            let key = choose|key: KeyView|
                #[trigger] self.defect_at(key, error) && self.nearest_defect(key);
            self.lemma_defect_is_unsound(key, error);
        }
    }

    /// A graph in which edge `i` of the reachable step `key` names `Start` as
    /// a destination is refused. It is refused with `PointToStart` where no
    /// earlier edge of `key` is without destinations and every other
    /// reachable step that is not sound lies farther from `Start` than `key`.
    /// Where the graph has no defect of another kind, it is refused with
    /// `PointToStart` as well.
    pub proof fn law_point_to_start(&self, key: KeyView, i: int, outcome: Result<(), GraphError>)
        requires
            self.check_outcome(outcome),
            self.points_back(key, i),
        ensures
            outcome is Err,
            self.only_nearest_defect(key) && (forall|j: int|
                0 <= j < i ==> (#[trigger] self.out_edges(key)[j]).targets() != Set::<
                    KeyView,
                >::empty()) ==> (outcome matches Err(GraphError::PointToStart)),
            self.no_empty_edge() && self.no_missing_out_edge() ==> (outcome matches Err(
                GraphError::PointToStart,
            )),
    {
        assert(!self.sound_at(key));
        if self.only_nearest_defect(key) && (forall|j: int|
            0 <= j < i ==> (#[trigger] self.out_edges(key)[j]).targets() != Set::<KeyView>::empty()) {
            self.lemma_defect_of_nearest(key, outcome);
            let error = outcome->Err_0;
            match error {
                GraphError::EmptyEdge { from, description } => {
                    let at = choose|at: int|
                        #[trigger] self.first_unsound_edge(key, at) && self.out_edges(
                            key,
                        )[at].targets() == Set::<KeyView>::empty() && description@
                            == self.out_edges(key)[at].label();
                    if i < at {
                        assert(!self.out_edges(key)[i].targets().contains(KeyView::Start));
                    }
                    assert(self.out_edges(key)[at].targets() != Set::<KeyView>::empty());
                },
                _ => {},
            }
        }
        if self.no_empty_edge() && self.no_missing_out_edge() {
            assert(!self.sound());
            let error = outcome->Err_0;
            let found = choose|found: KeyView|
                #[trigger] self.defect_at(found, error) && self.nearest_defect(found);
            self.lemma_defect_is_unsound(found, error);
            match error {
                GraphError::EmptyEdge { from, description } => {
                    let at = choose|at: int|
                        #[trigger] self.first_unsound_edge(found, at) && self.out_edges(
                            found,
                        )[at].targets() == Set::<KeyView>::empty() && description@
                            == self.out_edges(found)[at].label();
                    assert(self.has_empty_edge(found, at));
                },
                GraphError::MissingOutEdge(named) => {
                    assert(self.lacks_out_edge(found));
                },
                _ => {},
            }
        }
    }

    /// Validates the graph and, only if it is valid, hands it out for
    /// running, shared and immutable.
    pub fn compile(self) -> (compiled: Result<Arc<Self>, GraphError>)
        requires
            self.wf(),
        ensures
            match compiled {
                Ok(graph) => *graph == self && self.valid(),
                Err(error) => self.check_outcome(Err(error)),
            },
            compiled is Ok <==> self.valid(),
    {
        match self.check() {
            Ok(()) => Ok(Arc::new(self)),
            Err(error) => Err(error),
        }
    }
}

impl<N: Clone, E: Edge + Clone> Clone for Graph<N, E> {
    /// The copy has the steps and edges of this graph under the same keys,
    /// each one cloned.
    fn clone(&self) -> (copy: Self)
        ensures
            self.rows_distinct() ==> copy.rows_distinct(),
            forall|key: KeyView|
                match (#[trigger] self.step(key), copy.step(key)) {
                    (Some(mine), Some(other)) => cloned(mine, other),
                    (None, None) => true,
                    _ => false,
                },
            forall|key: KeyView| #[trigger] copy.out_edges(key).len() == self.out_edges(key).len(),
            forall|key: KeyView, i: int|
                0 <= i < self.out_edges(key).len() ==> cloned(
                    #[trigger] self.out_edges(key)[i],
                    copy.out_edges(key)[i],
                ),
    {
        let mut nodes: Vec<(NodeKey, N)> = Vec::new();
        let mut r: usize = 0;
        while r < self.nodes.len()
            invariant
                r <= self.nodes.len(),
                nodes.len() == r,
                forall|j: int| 0 <= j < r ==> (#[trigger] nodes@[j]).0@ == self.nodes@[j].0@,
                forall|j: int| 0 <= j < r ==> cloned(self.nodes@[j].1, (#[trigger] nodes@[j]).1),
            decreases self.nodes.len() - r,
        {
            nodes.push((self.nodes[r].0.clone(), self.nodes[r].1.clone()));
            r += 1;
        }
        let mut edges: Vec<(NodeKey, Vec<E>)> = Vec::new();
        let mut r: usize = 0;
        while r < self.edges.len()
            invariant
                r <= self.edges.len(),
                edges.len() == r,
                forall|j: int| 0 <= j < r ==> (#[trigger] edges@[j]).0@ == self.edges@[j].0@,
                forall|j: int| 0 <= j < r ==> (#[trigger] edges@[j]).1@.len() == self.edges@[j].1@.len(),
                forall|j: int, i: int|
                    0 <= j < r && 0 <= i < self.edges@[j].1@.len() ==> cloned(
                        self.edges@[j].1@[i],
                        #[trigger] edges@[j].1@[i],
                    ),
            decreases self.edges.len() - r,
        {
            let list = &self.edges[r].1;
            let mut copies: Vec<E> = Vec::new();
            let mut i: usize = 0;
            while i < list.len()
                invariant
                    i <= list.len(),
                    copies.len() == i,
                    forall|k: int| 0 <= k < i ==> cloned(list@[k], #[trigger] copies@[k]),
                decreases list.len() - i,
            {
                copies.push(list[i].clone());
                i += 1;
            }
            edges.push((self.edges[r].0.clone(), copies));
            r += 1;
        }
        let copy = Graph { nodes, edges };
        proof {
            assert(row_keys(copy.nodes@) =~= row_keys(self.nodes@));
            assert(row_keys(copy.edges@) =~= row_keys(self.edges@));
        }
        copy
    }
}

impl<N, E: Edge> Default for Graph<N, E> {
    fn default() -> (graph: Self)
        ensures
            graph.wf(),
            forall|key: KeyView| graph.step(key) is None,
            forall|key: KeyView| graph.out_edges(key) == Seq::<E>::empty(),
    {
        Graph::new()
    }
}

} // verus!
