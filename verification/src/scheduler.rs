//! The decisions of a run: what follows the completion of a step.
//!
//! A run keeps a list of the steps in flight. Whoever drives the run executes
//! the steps and evaluates the routing functions; for every completed step it
//! asks [`Scheduler::on_completion`] which steps to start next. The run is
//! over when no step is in flight.
//!
//! After the first failure nothing is started any more: steps that are still
//! in flight may finish, and their completions only shorten the list.

use vstd::prelude::*;
use crate::edge::{route_text, texts, Edge};
use crate::error::{GraphError, RunError};
use crate::graph::Graph;
use crate::keys::KeySet;
use crate::node::{KeyView, NodeKey};

verus! {

/// The routing values that were computed for edge `i` of the completed step;
/// none where `routed` is too short.
pub open spec fn routed_for(routed: Seq<Vec<String>>, i: int) -> Seq<Seq<char>> {
    if 0 <= i < routed.len() {
        texts(routed[i]@)
    } else {
        Seq::empty()
    }
}

/// The values of a list of keys.
pub open spec fn keys_of(list: Seq<NodeKey>) -> Seq<KeyView> {
    list.map_values(|key: NodeKey| key@)
}

impl<N, E: Edge> Graph<N, E> {
    /// Edge `i` of `from` does not accept one of its routing values.
    pub open spec fn rejects_at(&self, from: KeyView, routed: Seq<Vec<String>>, i: int) -> bool {
        0 <= i < self.out_edges(from).len() && self.out_edges(from)[i].rejected(routed_for(routed, i))
            is Some
    }

    /// The first edge of `from` that does not accept one of its routing
    /// values.
    pub open spec fn first_rejecting(&self, from: KeyView, routed: Seq<Vec<String>>) -> Option<int> {
        if exists|i: int| #[trigger] self.rejects_at(from, routed, i) {
            Some(
                choose|i: int|
                    #[trigger] self.rejects_at(from, routed, i) && forall|j: int|
                        0 <= j < i ==> !#[trigger] self.rejects_at(from, routed, j),
            )
        } else {
            None
        }
    }

    /// The union of what the edges of `from` resolve to.
    pub open spec fn successors(&self, from: KeyView, routed: Seq<Vec<String>>) -> Set<KeyView> {
        Set::new(
            |to: KeyView|
                exists|i: int|
                    0 <= i < self.out_edges(from).len() && (#[trigger] self.out_edges(
                        from,
                    )[i]).destinations(routed_for(routed, i)).contains(to),
        )
    }

    /// The edges of `from` cannot be resolved: there is none, or one of them
    /// does not accept a routing value.
    pub open spec fn routing_fails(&self, from: KeyView, routed: Seq<Vec<String>>) -> bool {
        self.out_edges(from).len() == 0 || self.first_rejecting(from, routed) is Some
    }

    /// `error` is the failure to resolve the edges of `from`:
    /// `MissingOutEdge` naming `from` where it has no edge, else the
    /// `UndefinedRoute` of the first edge that rejects a value, wrapped with
    /// `from`.
    pub open spec fn routing_failure(
        &self,
        from: KeyView,
        routed: Seq<Vec<String>>,
        error: RunError,
    ) -> bool {
        if self.out_edges(from).len() == 0 {
            error matches RunError::GraphError(GraphError::MissingOutEdge(key)) && key@ == from
        } else {
            match (self.first_rejecting(from, routed), error) {
                (Some(i), RunError::ResolveNextNodesError { error: inner, node_key }) => {
                    &&& node_key@ == from
                    &&& match *inner {
                        RunError::GraphError(GraphError::UndefinedRoute(name)) => self.out_edges(
                            from,
                        )[i].rejected(routed_for(routed, i)) matches Some(value) && name@
                            == route_text(value),
                        _ => false,
                    }
                },
                _ => false,
            }
        }
    }

    /// What [`Graph::next_nodes`] returns.
    pub open spec fn next_outcome(
        &self,
        from: KeyView,
        routed: Seq<Vec<String>>,
        next: Result<KeySet, RunError>,
    ) -> bool {
        match next {
            Ok(set) => !self.routing_fails(from, routed) && set.wf() && set@ == self.successors(
                from,
                routed,
            ),
            Err(error) => self.routing_fails(from, routed) && self.routing_failure(
                from,
                routed,
                error,
            ),
        }
    }

    /// `to` is a destination for which no step is registered.
    pub open spec fn undefined(&self, to: KeyView) -> bool {
        to != KeyView::End && self.step(to) is None
    }

    /// Some member of `next` is undefined.
    pub open spec fn spawn_fails(&self, next: Set<KeyView>) -> bool {
        exists|to: KeyView| next.contains(to) && #[trigger] self.undefined(to)
    }

    /// What [`Graph::spawn_list`] returns.
    pub open spec fn spawn_outcome(&self, next: Set<KeyView>, list: Result<Vec<NodeKey>, GraphError>) -> bool {
        match list {
            Ok(list) => {
                &&& !self.spawn_fails(next)
                &&& keys_of(list@).no_duplicates()
                &&& keys_of(list@).to_set() == next.remove(KeyView::End)
            },
            Err(GraphError::UndefinedNode(key)) => next.contains(key@) && self.undefined(key@),
            Err(_) => false,
        }
    }

    /// Where some edge of `from` rejects a routing value, one of them is the
    /// first to do so.
    pub proof fn lemma_first_rejecting(&self, from: KeyView, routed: Seq<Vec<String>>, edge: int)
        requires
            self.rejects_at(from, routed, edge),
        ensures
            self.first_rejecting(from, routed) matches Some(first) && first <= edge
                && self.rejects_at(from, routed, first) && forall|j: int|
                0 <= j < first ==> !#[trigger] self.rejects_at(from, routed, j),
        decreases edge,
    {
        if exists|j: int| 0 <= j < edge && #[trigger] self.rejects_at(from, routed, j) {
            let j = choose|j: int| 0 <= j < edge && #[trigger] self.rejects_at(from, routed, j);
            self.lemma_first_rejecting(from, routed, j);
        } else {
            assert(self.rejects_at(from, routed, edge) && forall|j: int|
                0 <= j < edge ==> !#[trigger] self.rejects_at(from, routed, j));
        }
    }

    /// In a graph whose reachable steps are all sound, a reachable step other
    /// than `End` has edges to resolve, and whatever they resolve to is
    /// reachable and is not `Start`: no branch of a run dead-ends, and none
    /// leaves the part of the graph that validation has examined.
    pub proof fn law_successors_are_reachable(&self, from: KeyView, routed: Seq<Vec<String>>)
        requires
            self.wf(),
            self.sound(),
            self.reachable(from),
            from != KeyView::End,
        ensures
            self.out_edges(from).len() > 0,
            forall|to: KeyView| #[trigger]
                self.successors(from, routed).contains(to) ==> self.reachable(to) && to
                    != KeyView::Start,
    {
        assert(self.sound_at(from));
        assert forall|to: KeyView| #[trigger]
            self.successors(from, routed).contains(to) implies self.reachable(to) && to
            != KeyView::Start by {
            let i = choose|i: int|
                0 <= i < self.out_edges(from).len() && (#[trigger] self.out_edges(
                    from,
                )[i]).destinations(routed_for(routed, i)).contains(to);
            let edge = self.out_edges(from)[i];
            edge.lemma_destinations_are_targets(routed_for(routed, i));
            assert(edge.targets().contains(to));
            assert(self.points_to(from, to));
            self.lemma_reach_step(from, to);
        }
    }

    /// Resolves every edge of the completed step `from` and unites the
    /// destinations. `routed` holds, edge by edge, the values that the
    /// routing functions returned.
    pub fn next_nodes(&self, from: &NodeKey, routed: &Vec<Vec<String>>) -> (next: Result<
        KeySet,
        RunError,
    >)
        requires
            self.wf(),
        ensures
            self.next_outcome(from@, routed@, next),
    {
        let edges = match self.edges_from(from) {
            Some(edges) => edges,
            None => {
                return Err(RunError::GraphError(GraphError::MissingOutEdge(from.clone())));
            },
        };
        if edges.len() == 0 {
            return Err(RunError::GraphError(GraphError::MissingOutEdge(from.clone())));
        }
        let none: Vec<String> = Vec::new();
        let mut set = KeySet::new();
        let mut i: usize = 0;
        while i < edges.len()
            invariant
                i <= edges.len(),
                self.wf(),
                set.wf(),
                none@.len() == 0,
                edges@ == self.out_edges(from@),
                forall|e: int| 0 <= e < i ==> !#[trigger] self.rejects_at(from@, routed@, e),
                set@ == Set::new(
                    |to: KeyView|
                        exists|e: int|
                            0 <= e < i && (#[trigger] self.out_edges(from@)[e]).destinations(
                                routed_for(routed@, e),
                            ).contains(to),
                ),
            decreases edges.len() - i,
        {
            let values: &Vec<String> = if i < routed.len() {
                &routed[i]
            } else {
                &none
            };
            assert(texts(values@) =~= routed_for(routed@, i as int));
            assert(self.out_edges(from@)[i as int].wf());
            match edges[i].resolve(values) {
                Ok(found) => {
                    set.extend(&found);
                    proof {
                        assert(!self.rejects_at(from@, routed@, i as int));
                        assert(set@ =~= Set::new(
                            |to: KeyView|
                                exists|e: int|
                                    0 <= e < i + 1 && (#[trigger] self.out_edges(
                                        from@,
                                    )[e]).destinations(routed_for(routed@, e)).contains(to),
                        ));
                    }
                },
                Err(error) => {
                    proof {
                        assert(self.rejects_at(from@, routed@, i as int));
                        let at = self.first_rejecting(from@, routed@)->0;
                        assert(at == i);
                    }
                    return Err(
                        RunError::ResolveNextNodesError {
                            error: Box::new(RunError::GraphError(error)),
                            node_key: from.clone(),
                        },
                    );
                },
            }
            i += 1;
        }
        assert(set@ =~= self.successors(from@, routed@));
        Ok(set)
    }

    /// The steps to start for the destinations `next`: every member but
    /// `End`, provided that a step is registered for each.
    pub fn spawn_list(&self, next: &KeySet) -> (list: Result<Vec<NodeKey>, GraphError>)
        requires
            self.wf(),
            next.wf(),
        ensures
            self.spawn_outcome(next@, list),
    {
        let mut list: Vec<NodeKey> = Vec::new();
        let mut i: usize = 0;
        assert(keys_of(list@) =~= Seq::<KeyView>::empty());
        while i < next.len()
            invariant
                i <= next.order().len(),
                self.wf(),
                next.wf(),
                forall|j: int| 0 <= j < i ==> !self.undefined(#[trigger] next.order()[j]),
                keys_of(list@).no_duplicates(),
                forall|key: KeyView|
                    keys_of(list@).contains(key) <==> key != KeyView::End && exists|j: int|
                        0 <= j < i && #[trigger] next.order()[j] == key,
            decreases next.order().len() - i,
        {
            let to = next.get(i);
            if !to.is_end() {
                if self.node(to).is_none() {
                    proof {
                        assert(next.order().contains(next.order()[i as int]));
                    }
                    return Err(GraphError::UndefinedNode(to.clone()));
                }
                let ghost before = keys_of(list@);
                list.push(to.clone());
                proof {
                    let after = keys_of(list@);
                    assert(after =~= before.push(to@));
                    assert(!before.contains(to@)) by {
                        if before.contains(to@) {
                            let j = choose|j: int| 0 <= j < i && #[trigger] next.order()[j] == to@;
                            assert(next.order()[j] != next.order()[i as int]);
                        }
                    }
                    assert forall|a: int, b: int|
                        0 <= a < after.len() && 0 <= b < after.len() && a != b implies after[a]
                        != after[b] by {
                        if a < before.len() && b < before.len() {
                        } else if a < before.len() {
                            assert(before.contains(before[a]));
                        } else {
                            assert(before.contains(before[b]));
                        }
                    }
                    assert forall|key: KeyView|
                        after.contains(key) <==> key != KeyView::End && exists|j: int|
                            0 <= j < i + 1 && #[trigger] next.order()[j] == key by {
                        if after.contains(key) {
                            let at = after.index_of(key);
                            if at < before.len() {
                                assert(before.contains(before[at]));
                            } else {
                                assert(next.order()[i as int] == key);
                            }
                        }
                        if key != KeyView::End && exists|j: int|
                            0 <= j < i + 1 && #[trigger] next.order()[j] == key {
                            let j = choose|j: int| 0 <= j < i + 1 && #[trigger] next.order()[j] == key;
                            if j < i {
                                assert(before.contains(key));
                                let at = before.index_of(key);
                                assert(after[at] == key);
                            } else {
                                assert(after[before.len() as int] == key);
                            }
                        }
                    }
                }
            }
            i += 1;
        }
        proof {
            let order = next.order();
            assert forall|to: KeyView| keys_of(list@).to_set().contains(to) == next@.remove(
                KeyView::End,
            ).contains(to) by {
                if next@.remove(KeyView::End).contains(to) {
                    let j = order.index_of(to);
                    assert(order[j] == to);
                }
            }
            assert(keys_of(list@).to_set() =~= next@.remove(KeyView::End));
            assert forall|to: KeyView| next@.contains(to) implies !#[trigger] self.undefined(to) by {
                let j = order.index_of(to);
                assert(order[j] == to);
            }
        }
        Ok(list)
    }
}

/// The state of one run.
#[derive(Debug)]
pub struct Scheduler {
    in_flight: Vec<NodeKey>,
    failure: Option<RunError>,
}

impl Scheduler {
    /// The steps in flight, in the order in which they were started.
    pub closed spec fn running(&self) -> Seq<KeyView> {
        keys_of(self.in_flight@)
    }

    /// The first failure of the run.
    pub closed spec fn failure(&self) -> Option<RunError> {
        self.failure
    }

    /// How a run moves from `before` to `self` when step `key` completes
    /// with `outcome`, and which steps are then `started`.
    ///
    /// The completed step leaves the list and the started ones join it at
    /// its end. Nothing is started after a failure, when the step has
    /// failed, when its edges cannot be resolved, or when a destination has
    /// no step; the first such failure is recorded. Otherwise every
    /// destination but `End` is started once.
    pub open spec fn follows<N, E: Edge>(
        &self,
        before: Scheduler,
        graph: &Graph<N, E>,
        key: KeyView,
        outcome: Result<(), RunError>,
        routed: Seq<Vec<String>>,
        started: Seq<NodeKey>,
    ) -> bool {
        &&& self.running() == before.running().remove_value(key) + keys_of(started)
        &&& if before.failure() is Some {
            started.len() == 0 && self.failure() == before.failure()
        } else if let Err(error) = outcome {
            &&& started.len() == 0
            &&& self.failure() matches Some(RunError::StepFailed { error: inner, node_key })
            &&& *inner == error
            &&& node_key@ == key
        } else if graph.routing_fails(key, routed) {
            &&& started.len() == 0
            &&& self.failure() matches Some(error)
            &&& graph.routing_failure(key, routed, error)
        } else if graph.spawn_fails(graph.successors(key, routed)) {
            &&& started.len() == 0
            &&& self.failure() matches Some(RunError::GraphError(GraphError::UndefinedNode(to)))
            &&& graph.successors(key, routed).contains(to@)
            &&& graph.undefined(to@)
        } else {
            &&& self.failure() is None
            &&& keys_of(started).no_duplicates()
            &&& keys_of(started).to_set() == graph.successors(key, routed).remove(KeyView::End)
        }
    }

    /// Where an edge of the completed step does not accept a routing value,
    /// the run fails with `UndefinedRoute` naming that value, wrapped with the
    /// key of the step, and no step is started.
    pub proof fn law_undefined_route_starts_nothing<N, E: Edge>(
        &self,
        before: Scheduler,
        graph: &Graph<N, E>,
        key: KeyView,
        outcome: Result<(), RunError>,
        routed: Seq<Vec<String>>,
        started: Seq<NodeKey>,
        edge: int,
    )
        requires
            self.follows(before, graph, key, outcome, routed, started),
            before.failure() is None,
            outcome is Ok,
            graph.rejects_at(key, routed, edge),
        ensures
            started.len() == 0,
            self.running() == before.running().remove_value(key),
            graph.first_rejecting(key, routed) matches Some(first) && graph.rejects_at(
                key,
                routed,
                first,
            ) && first <= edge,
            match self.failure() {
                Some(RunError::ResolveNextNodesError { error, node_key }) => node_key@ == key
                    && match *error {
                    RunError::GraphError(GraphError::UndefinedRoute(name)) => name@ == route_text(
                        graph.out_edges(key)[graph.first_rejecting(key, routed)->0].rejected(
                            routed_for(routed, graph.first_rejecting(key, routed)->0),
                        )->0,
                    ),
                    _ => false,
                },
                _ => false,
            },
    {
        graph.lemma_first_rejecting(key, routed, edge);
        assert(graph.routing_fails(key, routed));
        assert(self.running() =~= before.running().remove_value(key));
    }

    /// After a failure nothing is started any more, and the failure stays
    /// the one that is reported.
    pub proof fn law_failure_is_final<N, E: Edge>(
        &self,
        before: Scheduler,
        graph: &Graph<N, E>,
        key: KeyView,
        outcome: Result<(), RunError>,
        routed: Seq<Vec<String>>,
        started: Seq<NodeKey>,
    )
        requires
            self.follows(before, graph, key, outcome, routed, started),
            before.failure() is Some,
        ensures
            started.len() == 0,
            self.failure() == before.failure(),
            self.running().len() <= before.running().len(),
    {
        before.running().index_of_first_ensures(key);
        assert(self.running() =~= before.running().remove_value(key));
    }

    /// In a graph whose reachable steps are all sound, a run that has only
    /// reachable steps other than `End` in flight keeps it so, and never
    /// fails for a step without out-edges.
    pub proof fn law_run_stays_within_reach<N, E: Edge>(
        &self,
        before: Scheduler,
        graph: &Graph<N, E>,
        key: KeyView,
        outcome: Result<(), RunError>,
        routed: Seq<Vec<String>>,
        started: Seq<NodeKey>,
    )
        requires
            graph.wf(),
            graph.sound(),
            self.follows(before, graph, key, outcome, routed, started),
            graph.reachable(key),
            key != KeyView::End,
            forall|i: int|
                0 <= i < before.running().len() ==> graph.reachable(#[trigger] before.running()[i])
                    && before.running()[i] != KeyView::End,
        ensures
            forall|i: int|
                0 <= i < self.running().len() ==> graph.reachable(#[trigger] self.running()[i])
                    && self.running()[i] != KeyView::End,
            forall|i: int| 0 <= i < started.len() ==> (#[trigger] started[i])@ != KeyView::Start,
            before.failure() is None ==> !(self.failure() matches Some(
                RunError::GraphError(GraphError::MissingOutEdge(_)),
            )),
    {
        graph.law_successors_are_reachable(key, routed);
        let old_list = before.running();
        let rest = old_list.remove_value(key);
        old_list.index_of_first_ensures(key);
        assert forall|i: int| 0 <= i < rest.len() implies graph.reachable(#[trigger] rest[i])
            && rest[i] != KeyView::End by {
            match old_list.index_of_first(key) {
                Some(at) => {
                    if i < at {
                        assert(rest[i] == old_list[i]);
                    } else {
                        assert(rest[i] == old_list[i + 1]);
                    }
                },
                None => {},
            }
        }
        let joined = keys_of(started);
        assert forall|i: int| 0 <= i < joined.len() implies graph.reachable(#[trigger] joined[i])
            && joined[i] != KeyView::End && joined[i] != KeyView::Start by {
            assert(joined.to_set().contains(joined[i])) by {
                assert(joined.contains(joined[i]));
            }
            assert(graph.successors(key, routed).contains(joined[i]));
        }
        assert forall|i: int| 0 <= i < self.running().len() implies graph.reachable(
            #[trigger] self.running()[i],
        ) && self.running()[i] != KeyView::End by {
            if i < rest.len() {
                assert(self.running()[i] == rest[i]);
            } else {
                assert(self.running()[i] == joined[i - rest.len()]);
            }
        }
        assert forall|i: int| 0 <= i < started.len() implies (#[trigger] started[i])@
            != KeyView::Start by {
            assert(joined[i] == started[i]@);
        }
    }

    /// A run at its beginning: only the virtual step `Start` is in flight.
    pub fn start() -> (run: Self)
        ensures
            run.running() == seq![KeyView::Start],
            run.failure() is None,
    {
        let mut in_flight: Vec<NodeKey> = Vec::new();
        in_flight.push(NodeKey::Start);
        let run = Scheduler { in_flight, failure: None };
        assert(run.running() =~= seq![KeyView::Start]);
        run
    }

    /// Whether no step is in flight, so that the run is over.
    pub fn is_quiescent(&self) -> (quiet: bool)
        ensures
            quiet == (self.running().len() == 0),
    {
        self.in_flight.len() == 0
    }

    /// Whether the run has failed.
    pub fn has_failed(&self) -> (failed: bool)
        ensures
            failed == self.failure() is Some,
    {
        self.failure.is_some()
    }

    /// Whether the routing functions of a step that completed with `outcome`
    /// are to be evaluated: only where the step has succeeded and the run has
    /// not failed.
    pub fn wants_routing(&self, outcome: &Result<(), RunError>) -> (wanted: bool)
        ensures
            wanted == (self.failure() is None && outcome is Ok),
    {
        self.failure.is_none() && outcome.is_ok()
    }

    /// The number of steps in flight.
    pub fn in_flight(&self) -> (n: usize)
        ensures
            n == self.running().len(),
    {
        self.in_flight.len()
    }

    /// The outcome of the run: its first failure, if it had one.
    pub fn finish(self) -> (outcome: Result<(), RunError>)
        ensures
            match self.failure() {
                Some(error) => outcome == Err::<(), RunError>(error),
                None => outcome is Ok,
            },
    {
        match self.failure {
            Some(error) => Err(error),
            None => Ok(()),
        }
    }

    /// Takes the first occurrence of `key` out of the list of steps in
    /// flight.
    fn retire(&mut self, key: &NodeKey)
        ensures
            final(self).running() == old(self).running().remove_value(key@),
            final(self).failure() == old(self).failure(),
    {
        let ghost before = self.running();
        let mut i: usize = 0;
        while i < self.in_flight.len()
            invariant
                i <= self.in_flight.len(),
                self.running() == before,
                before == old(self).running(),
                self.failure() == old(self).failure(),
                forall|j: int| 0 <= j < i ==> before[j] != key@,
            decreases self.in_flight.len() - i,
        {
            if self.in_flight[i].same(key) {
                proof {
                    assert(before[i as int] == key@);
                    before.index_of_first_ensures(key@);
                    let at = before.index_of_first(key@)->0;
                    if at < i {
                        assert(before[at] != key@);
                    } else if i < at {
                        assert(before[i as int] != key@);
                    }
                }
                self.in_flight.remove(i);
                assert(self.running() =~= before.remove(i as int));
                return ;
            }
            i += 1;
        }
        proof {
            before.index_of_first_ensures(key@);
            if before.contains(key@) {
                let at = before.index_of(key@);
                assert(before[at] != key@);
            }
        }
    }

    /// Puts the steps of `list` at the end of the list of steps in flight.
    fn enlist(&mut self, list: &Vec<NodeKey>)
        ensures
            final(self).running() == old(self).running() + keys_of(list@),
            final(self).failure() == old(self).failure(),
    {
        let ghost before = self.running();
        let mut i: usize = 0;
        while i < list.len()
            invariant
                i <= list.len(),
                self.failure() == old(self).failure(),
                self.running() == before + keys_of(list@).take(i as int),
            decreases list.len() - i,
        {
            let ghost so_far = self.running();
            self.in_flight.push(list[i].clone());
            assert(self.running() =~= so_far.push(list@[i as int]@));
            assert(keys_of(list@).take(i as int + 1) =~= keys_of(list@).take(i as int).push(
                list@[i as int]@,
            ));
            i += 1;
        }
        assert(keys_of(list@).take(list.len() as int) =~= keys_of(list@));
    }

    /// Records that a routing function of the completed step `node_key` has
    /// failed with `error`: the step leaves the list, nothing is started,
    /// and, unless the run has failed before, its failure is `error` wrapped
    /// with the key of the step.
    pub fn on_unresolved(&mut self, node_key: &NodeKey, error: RunError)
        ensures
            final(self).running() == old(self).running().remove_value(node_key@),
            match old(self).failure() {
                Some(earlier) => final(self).failure() == Some(earlier),
                None => final(self).failure() matches Some(
                    RunError::ResolveNextNodesError { error: inner, node_key: key },
                ) && *inner == error && key@ == node_key@,
            },
    {
        self.retire(node_key);
        if self.failure.is_none() {
            self.failure = Some(
                RunError::ResolveNextNodesError { error: Box::new(error), node_key: node_key.clone() },
            );
        }
    }

    /// Decides what follows the completion of step `node_key`.
    ///
    /// `outcome` is what the step returned and `routed` holds, for each of
    /// its edges in order, the values that the edge's routing function
    /// returned (none for an edge without a routing function). Returns the
    /// steps to start now.
    pub fn on_completion<N, E: Edge>(
        &mut self,
        graph: &Graph<N, E>,
        node_key: &NodeKey,
        outcome: Result<(), RunError>,
        routed: &Vec<Vec<String>>,
    ) -> (started: Vec<NodeKey>)
        requires
            graph.wf(),
        ensures
            final(self).follows(*old(self), graph, node_key@, outcome, routed@, started@),
    {
        let ghost before = *self;
        self.retire(node_key);
        let mut started: Vec<NodeKey> = Vec::new();
        assert(keys_of(started@) =~= Seq::<KeyView>::empty());
        assert(self.running() =~= before.running().remove_value(node_key@) + keys_of(started@));
        if self.failure.is_some() {
            return started;
        }
        if let Err(error) = outcome {
            self.failure = Some(
                RunError::StepFailed { error: Box::new(error), node_key: node_key.clone() },
            );
            return started;
        }
        let next = match graph.next_nodes(node_key, routed) {
            Ok(next) => next,
            Err(error) => {
                self.failure = Some(error);
                return started;
            },
        };
        match graph.spawn_list(&next) {
            Ok(list) => {
                self.enlist(&list);
                list
            },
            Err(error) => {
                self.failure = Some(RunError::GraphError(error));
                started
            },
        }
    }
}

} // verus!
