//! Edges that route by a value computed at run time.

use vstd::prelude::*;
use vstd::string::StringExecFns;
use crate::edge::{debug_route, route_text, texts, Edge};
use crate::error::{GraphError, RunError};
use crate::keys::KeySet;
use crate::node::{KeyView, NodeKey};

verus! {

/// The text `std` gives a routing table when it formats its entries for
/// debugging.
pub uninterp spec fn router_text(entries: Seq<(Seq<char>, KeyView)>) -> Seq<char>;

/// The first value of `routed` that `table` has no entry for.
pub open spec fn first_unrouted(table: Map<Seq<char>, KeyView>, routed: Seq<Seq<char>>) -> Option<
    Seq<char>,
> {
    if forall|i: int| 0 <= i < routed.len() ==> table.contains_key(#[trigger] routed[i]) {
        None
    } else {
        Some(
            routed[choose|i: int|
                0 <= i < routed.len() && !table.contains_key(#[trigger] routed[i]) && forall|
                    j: int,
                |
                    0 <= j < i ==> table.contains_key(#[trigger] routed[j])],
        )
    }
}

/// Where `table` has no entry for some value of `routed`, the value that
/// resolution names is one of the routed values and has no entry, and
/// every value before it has one.
pub proof fn law_first_unrouted_is_absent(table: Map<Seq<char>, KeyView>, routed: Seq<Seq<char>>, i: int)
    requires
        0 <= i < routed.len(),
        !table.contains_key(routed[i]),
    ensures
        first_unrouted(table, routed) matches Some(value) && !table.contains_key(value) && exists|
            k: int,
        |
            0 <= k <= i && #[trigger] routed[k] == value && forall|j: int|
                0 <= j < k ==> table.contains_key(#[trigger] routed[j]),
    decreases i,
{
    if exists|j: int| 0 <= j < i && !table.contains_key(#[trigger] routed[j]) {
        let j = choose|j: int| 0 <= j < i && !table.contains_key(#[trigger] routed[j]);
        law_first_unrouted_is_absent(table, routed, j);
    } else {
        assert(0 <= i < routed.len() && !table.contains_key(routed[i]) && forall|j: int|
            0 <= j < i ==> table.contains_key(#[trigger] routed[j]));
        let at = choose|k: int|
            0 <= k < routed.len() && !table.contains_key(#[trigger] routed[k]) && forall|j: int|
                0 <= j < k ==> table.contains_key(#[trigger] routed[j]);
        assert(at == i);
    }
}

/// The destinations that `table` gives for the values of `routed`.
pub open spec fn routed_to(table: Map<Seq<char>, KeyView>, routed: Seq<Seq<char>>) -> Set<KeyView> {
    Set::new(
        |to: KeyView|
            exists|i: int|
                0 <= i < routed.len() && table.contains_key(#[trigger] routed[i]) && table[routed[i]]
                    == to,
    )
}

/// A routing table: maps each accepted routing value to a destination.
#[derive(Debug)]
pub struct Router {
    entries: Vec<(String, NodeKey)>,
}

impl View for Router {
    type V = Map<Seq<char>, KeyView>;

    open spec fn view(&self) -> Map<Seq<char>, KeyView> {
        Map::new(
            |value: Seq<char>| self.position(value) is Some,
            |value: Seq<char>| self.pairs()[self.position(value)->0].1,
        )
    }
}

/// Formats the entries of a routing table with `std`'s `format!` and `{:?}`.
///
/// Claims only that the text is a function of the entries.
#[verifier::external_body]
fn debug_entries(entries: &Vec<(String, NodeKey)>) -> (text: String)
    ensures
        text@ == router_text(entries@.map_values(|e: (String, NodeKey)| (e.0@, e.1@))),
{
    format!("{:?}", entries)
}

impl Clone for Router {
    fn clone(&self) -> (copy: Self)
        ensures
            copy.pairs() == self.pairs(),
            copy@ == self@,
            self.wf() ==> copy.wf(),
    {
        let mut entries: Vec<(String, NodeKey)> = Vec::new();
        let mut i: usize = 0;
        while i < self.entries.len()
            invariant
                i <= self.entries.len(),
                entries.len() == i,
                forall|j: int|
                    0 <= j < i ==> (#[trigger] entries@[j]).0@ == self.entries@[j].0@ && entries@[j].1@
                        == self.entries@[j].1@,
            decreases self.entries.len() - i,
        {
            entries.push((self.entries[i].0.clone(), self.entries[i].1.clone()));
            i += 1;
        }
        let copy = Router { entries };
        assert(copy.pairs() =~= self.pairs());
        copy
    }
}

impl Router {
    /// The entries in the order in which their routing values were first added.
    pub closed spec fn pairs(&self) -> Seq<(Seq<char>, KeyView)> {
        self.entries@.map_values(|e: (String, NodeKey)| (e.0@, e.1@))
    }

    /// Where the entry for `value` stands among the pairs.
    pub open spec fn position(&self, value: Seq<char>) -> Option<int> {
        if exists|i: int| 0 <= i < self.pairs().len() && (#[trigger] self.pairs()[i]).0 == value {
            Some(
                choose|i: int| 0 <= i < self.pairs().len() && (#[trigger] self.pairs()[i]).0 == value,
            )
        } else {
            None
        }
    }

    /// No routing value has two entries.
    pub open spec fn wf(&self) -> bool {
        forall|i: int, j: int|
            0 <= i < j < self.pairs().len() ==> (#[trigger] self.pairs()[i]).0 != (
            #[trigger] self.pairs()[j]).0
    }

    /// Each pair is the table's entry for its routing value.
    pub proof fn lemma_pair(&self, i: int)
        requires
            self.wf(),
            0 <= i < self.pairs().len(),
        ensures
            self@.contains_key(self.pairs()[i].0),
            self@[self.pairs()[i].0] == self.pairs()[i].1,
            self.position(self.pairs()[i].0) == Some(i),
    {
        let value = self.pairs()[i].0;
        let at = self.position(value)->0;
        if at < i {
            assert(self.pairs()[at].0 != self.pairs()[i].0);
        } else if i < at {
            assert(self.pairs()[i].0 != self.pairs()[at].0);
        }
    }

    /// The table without entries.
    pub fn new() -> (router: Self)
        ensures
            router.wf(),
            router.pairs() == Seq::<(Seq<char>, KeyView)>::empty(),
            router@ == Map::<Seq<char>, KeyView>::empty(),
    {
        let router = Router { entries: Vec::new() };
        assert(router.pairs() =~= Seq::<(Seq<char>, KeyView)>::empty());
        assert(router@ =~= Map::<Seq<char>, KeyView>::empty());
        router
    }

    /// The number of entries.
    pub fn len(&self) -> (n: usize)
        ensures
            n == self.pairs().len(),
    {
        self.entries.len()
    }

    fn find(&self, value: &String) -> (at: Option<usize>)
        requires
            self.wf(),
        ensures
            match at {
                Some(i) => i < self.pairs().len() && self.pairs()[i as int].0 == value@
                    && self.position(value@) == Some(i as int),
                None => self.position(value@) is None,
            },
    {
        let mut i: usize = 0;
        while i < self.entries.len()
            invariant
                i <= self.entries.len(),
                self.wf(),
                forall|j: int| 0 <= j < i ==> (#[trigger] self.pairs()[j]).0 != value@,
            decreases self.entries.len() - i,
        {
            if self.entries[i].0 == *value {
                proof {
                    assert(self.pairs()[i as int].0 == value@);
                    self.lemma_pair(i as int);
                }
                return Some(i);
            }
            i += 1;
        }
        None
    }

    /// The destination for `value`, if the table has an entry for it.
    pub fn get(&self, value: &String) -> (to: Option<&NodeKey>)
        requires
            self.wf(),
        ensures
            match to {
                Some(key) => self@.contains_key(value@) && key@ == self@[value@],
                None => !self@.contains_key(value@),
            },
    {
        match self.find(value) {
            Some(i) => Some(&self.entries[i].1),
            None => None,
        }
    }

    /// Routes `value` to `to`, replacing an earlier entry for `value`.
    pub fn insert(&mut self, value: String, to: NodeKey)
        requires
            old(self).wf(),
        ensures
            final(self).wf(),
            final(self)@ == old(self)@.insert(value@, to@),
    {
        let ghost before = *self;
        let ghost pair = (value@, to@);
        match self.find(&value) {
            Some(i) => {
                self.entries.set(i, (value, to));
                proof {
                    assert(self.pairs() =~= before.pairs().update(i as int, pair));
                    assert forall|a: int, b: int| 0 <= a < b < self.pairs().len() implies (
                    #[trigger] self.pairs()[a]).0 != (#[trigger] self.pairs()[b]).0 by {
                        assert(before.pairs()[a].0 != before.pairs()[b].0);
                    }
                    assert forall|v: Seq<char>| #[trigger]
                        self@.contains_key(v) == before@.insert(pair.0, pair.1).contains_key(v) by {
                        if self@.contains_key(v) {
                            let at = self.position(v)->0;
                            assert(before.pairs()[at].0 == v);
                        }
                        if before@.contains_key(v) {
                            let at = before.position(v)->0;
                            assert(self.pairs()[at].0 == v);
                        }
                        if v == pair.0 {
                            assert(self.pairs()[i as int].0 == v);
                        }
                    }
                    assert forall|v: Seq<char>| self@.contains_key(v) implies #[trigger] self@[v]
                        == before@.insert(pair.0, pair.1)[v] by {
                        let at = self.position(v)->0;
                        self.lemma_pair(at);
                        if at != i {
                            assert(before.pairs()[at].0 == v);
                            before.lemma_pair(at);
                        }
                    }
                    assert(self@ =~= before@.insert(pair.0, pair.1));
                }
            },
            None => {
                self.entries.push((value, to));
                proof {
                    let n = before.pairs().len() as int;
                    assert(self.pairs() =~= before.pairs().push(pair));
                    assert forall|a: int, b: int| 0 <= a < b < self.pairs().len() implies (
                    #[trigger] self.pairs()[a]).0 != (#[trigger] self.pairs()[b]).0 by {
                        if b < n {
                            assert(before.pairs()[a].0 != before.pairs()[b].0);
                        } else {
                            assert(before.pairs()[a].0 != pair.0);
                        }
                    }
                    assert forall|v: Seq<char>| #[trigger]
                        self@.contains_key(v) == before@.insert(pair.0, pair.1).contains_key(v) by {
                        if self@.contains_key(v) {
                            let at = self.position(v)->0;
                            if at < n {
                                assert(before.pairs()[at].0 == v);
                            }
                        }
                        if before@.contains_key(v) {
                            let at = before.position(v)->0;
                            assert(self.pairs()[at].0 == v);
                        }
                        if v == pair.0 {
                            assert(self.pairs()[n].0 == v);
                        }
                    }
                    assert forall|v: Seq<char>| self@.contains_key(v) implies #[trigger] self@[v]
                        == before@.insert(pair.0, pair.1)[v] by {
                        let at = self.position(v)->0;
                        self.lemma_pair(at);
                        if at < n {
                            assert(before.pairs()[at].0 == v);
                            before.lemma_pair(at);
                        }
                    }
                    assert(self@ =~= before@.insert(pair.0, pair.1));
                }
            },
        }
    }

    /// Every destination of the table.
    pub fn targets(&self) -> (set: KeySet)
        requires
            self.wf(),
        ensures
            set.wf(),
            set@ == self@.values(),
    {
        let mut set = KeySet::new();
        let mut i: usize = 0;
        while i < self.entries.len()
            invariant
                i <= self.entries.len(),
                self.wf(),
                set.wf(),
                set@ == Set::new(
                    |to: KeyView|
                        exists|j: int| 0 <= j < i && (#[trigger] self.pairs()[j]).1 == to,
                ),
            decreases self.entries.len() - i,
        {
            let to = self.entries[i].1.clone();
            set.insert(to);
            proof {
                assert(self.pairs()[i as int].1 == to@);
                assert(set@ =~= Set::new(
                    |to: KeyView|
                        exists|j: int| 0 <= j < i + 1 && (#[trigger] self.pairs()[j]).1 == to,
                ));
            }
            i += 1;
        }
        proof {
            assert forall|to: KeyView| set@.contains(to) == self@.values().contains(to) by {
                if set@.contains(to) {
                    let j = choose|j: int|
                        0 <= j < self.pairs().len() && (#[trigger] self.pairs()[j]).1 == to;
                    self.lemma_pair(j);
                    assert(self@.dom().contains(self.pairs()[j].0));
                }
                if self@.values().contains(to) {
                    let v = choose|v: Seq<char>| #[trigger]
                        self@.dom().contains(v) && self@[v] == to;
                    let at = self.position(v)->0;
                    assert(self.pairs()[at].1 == to);
                }
            }
            assert(set@ =~= self@.values());
        }
        set
    }

    /// `prefix` followed by the entries of the table.
    pub fn describe(&self, prefix: &str) -> (text: String)
        ensures
            text@ == prefix@ + router_text(self.pairs()),
    {
        let mut text = String::from_str(prefix);
        text.append(debug_entries(&self.entries).as_str());
        text
    }

    /// The destinations for the routing values `routed`, or
    /// `UndefinedRoute` naming the first value without an entry.
    pub fn resolve(&self, routed: &Vec<String>) -> (next: Result<KeySet, GraphError>)
        requires
            self.wf(),
        ensures
            match next {
                Ok(set) => first_unrouted(self@, texts(routed@)) is None && set.wf() && set@
                    == routed_to(self@, texts(routed@)),
                Err(GraphError::UndefinedRoute(name)) => first_unrouted(
                    self@,
                    texts(routed@),
                ) matches Some(value) && name@ == route_text(value),
                Err(_) => false,
            },
    {
        let ghost values = texts(routed@);
        let mut set = KeySet::new();
        let mut i: usize = 0;
        while i < routed.len()
            invariant
                i <= routed.len(),
                self.wf(),
                set.wf(),
                values == texts(routed@),
                forall|j: int| 0 <= j < i ==> self@.contains_key(#[trigger] values[j]),
                set@ == routed_to(self@, values.take(i as int)),
            decreases routed.len() - i,
        {
            assert(values[i as int] == routed@[i as int]@);
            match self.get(&routed[i]) {
                Some(to) => {
                    let ghost seen = set@;
                    set.insert(to.clone());
                    proof {
                        let next = values.take(i as int + 1);
                        assert forall|d: KeyView| set@.contains(d) == routed_to(
                            self@,
                            next,
                        ).contains(d) by {
                            if seen.contains(d) {
                                let j = choose|j: int|
                                    0 <= j < i && self@.contains_key(
                                        #[trigger] values.take(i as int)[j],
                                    ) && self@[values.take(i as int)[j]] == d;
                                assert(next[j] == values[j]);
                            }
                            if d == to@ {
                                assert(next[i as int] == values[i as int]);
                            }
                            if routed_to(self@, next).contains(d) {
                                let j = choose|j: int|
                                    0 <= j < i + 1 && self@.contains_key(#[trigger] next[j])
                                        && self@[next[j]] == d;
                                if j < i {
                                    assert(values.take(i as int)[j] == next[j]);
                                }
                            }
                        }
                        assert(set@ =~= routed_to(self@, next));
                    }
                },
                None => {
                    let name = debug_route(&routed[i]);
                    proof {
                        let at = choose|k: int|
                            0 <= k < values.len() && !self@.contains_key(#[trigger] values[k])
                                && forall|j: int|
                                0 <= j < k ==> self@.contains_key(#[trigger] values[j]);
                        assert(!self@.contains_key(values[i as int]));
                        assert(at == i);
                    }
                    return Err(GraphError::UndefinedRoute(name));
                },
            }
            i += 1;
        }
        assert(values.take(routed.len() as int) =~= values);
        Ok(set)
    }

    /// A table has finitely many destinations.
    pub proof fn lemma_values_finite(&self)
        ensures
            self@.values().finite(),
    {
        let tos = self.pairs().map_values(|pair: (Seq<char>, KeyView)| pair.1);
        vstd::seq_lib::seq_to_set_is_finite(tos);
        assert forall|to: KeyView| self@.values().contains(to) implies tos.to_set().contains(to) by {
            let value = choose|value: Seq<char>| #[trigger]
                self@.dom().contains(value) && self@[value] == to;
            let at = self.position(value)->0;
            assert(tos[at] == to);
        }
        vstd::set_lib::lemma_len_subset(self@.values(), tos.to_set());
    }

    /// Whatever the table resolves to is one of its destinations.
    pub proof fn lemma_routed_in_values(&self, routed: Seq<Seq<char>>)
        ensures
            routed_to(self@, routed).subset_of(self@.values()),
    {
        assert forall|to: KeyView| routed_to(self@, routed).contains(to) implies self@.values().contains(
            to,
        ) by {
            let i = choose|i: int|
                0 <= i < routed.len() && self@.contains_key(#[trigger] routed[i]) && self@[routed[i]]
                    == to;
            assert(self@.dom().contains(routed[i]));
        }
    }
}

/// An edge whose routing function answers at once.
///
/// `f` computes routing values from a request; `router` maps every accepted
/// value to a destination.
pub struct EdgeFunction<F> {
    pub f: F,
    pub router: Router,
}

/// What [`EdgeFunction::next_nodes`] returns when the routing function has
/// returned `routed`.
pub open spec fn routing_outcome(
    router: Router,
    routed: Result<Vec<String>, RunError>,
    next: Result<KeySet, RunError>,
) -> bool {
    match routed {
        Err(error) => next == Err::<KeySet, RunError>(error),
        Ok(values) => match next {
            Ok(set) => first_unrouted(router@, texts(values@)) is None && set.wf() && set@
                == routed_to(router@, texts(values@)),
            Err(RunError::GraphError(GraphError::UndefinedRoute(name))) => first_unrouted(
                router@,
                texts(values@),
            ) matches Some(value) && name@ == route_text(value),
            Err(_) => false,
        },
    }
}

impl<F: Clone> Clone for EdgeFunction<F> {
    fn clone(&self) -> (copy: Self)
        ensures
            cloned(self.f, copy.f),
            copy.router.pairs() == self.router.pairs(),
            copy.router@ == self.router@,
            self.router.wf() ==> copy.router.wf(),
    {
        EdgeFunction { f: self.f.clone(), router: self.router.clone() }
    }
}

impl<F> EdgeFunction<F> {
    /// Calls the routing function on `request` and resolves what it returns.
    ///
    /// A failure of the routing function is handed on unchanged.
    pub fn next_nodes<Req>(&self, request: &Req) -> (next: Result<KeySet, RunError>) where
        F: Fn(&Req) -> Result<Vec<String>, RunError>,

        requires
            self.router.wf(),
            call_requires(self.f, (request,)),
        ensures
            exists|routed: Result<Vec<String>, RunError>|
                call_ensures(self.f, (request,), routed) && routing_outcome(
                    self.router,
                    routed,
                    next,
                ),
    {
        let routed = (self.f)(request);
        let ghost answer = routed;
        let next = match routed {
            Err(error) => Err(error),
            Ok(values) => match self.router.resolve(&values) {
                Ok(set) => Ok(set),
                Err(error) => Err(RunError::GraphError(error)),
            },
        };
        assert(routing_outcome(self.router, answer, next));
        next
    }
}

impl<F> Edge for EdgeFunction<F> {
    open spec fn wf(&self) -> bool {
        self.router.wf()
    }

    open spec fn targets(&self) -> Set<KeyView> {
        self.router@.values()
    }

    open spec fn label(&self) -> Seq<char> {
        "Function Edge to "@ + router_text(self.router.pairs())
    }

    open spec fn rejected(&self, routed: Seq<Seq<char>>) -> Option<Seq<char>> {
        first_unrouted(self.router@, routed)
    }

    open spec fn destinations(&self, routed: Seq<Seq<char>>) -> Set<KeyView> {
        routed_to(self.router@, routed)
    }

    proof fn lemma_destinations_are_targets(&self, routed: Seq<Seq<char>>) {
        self.router.lemma_routed_in_values(routed);
    }

    proof fn lemma_targets_finite(&self) {
        self.router.lemma_values_finite();
    }

    fn neighbours(&self) -> (set: KeySet) {
        self.router.targets()
    }

    fn description(&self) -> (text: String) {
        self.router.describe("Function Edge to ")
    }

    fn resolve(&self, routed: &Vec<String>) -> (next: Result<KeySet, GraphError>) {
        self.router.resolve(routed)
    }
}

/// An edge whose routing function may suspend before it answers.
///
/// The caller awaits `f` and hands the routing values to [`Edge::resolve`].
pub struct AsyncEdgeFunction<F> {
    pub f: F,
    pub router: Router,
}

impl<F: Clone> Clone for AsyncEdgeFunction<F> {
    fn clone(&self) -> (copy: Self)
        ensures
            cloned(self.f, copy.f),
            copy.router.pairs() == self.router.pairs(),
            copy.router@ == self.router@,
            self.router.wf() ==> copy.router.wf(),
    {
        AsyncEdgeFunction { f: self.f.clone(), router: self.router.clone() }
    }
}

impl<F> Edge for AsyncEdgeFunction<F> {
    open spec fn wf(&self) -> bool {
        self.router.wf()
    }

    open spec fn targets(&self) -> Set<KeyView> {
        self.router@.values()
    }

    open spec fn label(&self) -> Seq<char> {
        "Function Edge to "@ + router_text(self.router.pairs())
    }

    open spec fn rejected(&self, routed: Seq<Seq<char>>) -> Option<Seq<char>> {
        first_unrouted(self.router@, routed)
    }

    open spec fn destinations(&self, routed: Seq<Seq<char>>) -> Set<KeyView> {
        routed_to(self.router@, routed)
    }

    proof fn lemma_destinations_are_targets(&self, routed: Seq<Seq<char>>) {
        self.router.lemma_routed_in_values(routed);
    }

    proof fn lemma_targets_finite(&self) {
        self.router.lemma_values_finite();
    }

    fn neighbours(&self) -> (set: KeySet) {
        self.router.targets()
    }

    fn description(&self) -> (text: String) {
        self.router.describe("Function Edge to ")
    }

    fn resolve(&self, routed: &Vec<String>) -> (next: Result<KeySet, GraphError>) {
        self.router.resolve(routed)
    }
}

} // verus!
