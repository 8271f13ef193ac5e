//! The callback registry: the registered callbacks, and, once registration is
//! complete, the dependency graph between them and its topological ranking.

use vstd::prelude::*;
use vstd::string::StringExecFns;
use std::collections::HashMap;
use std::hash::Hash;
use crate::callback::{Callback, CallbackId, CallbackWithId};
use crate::graph;
use crate::toposort;

verus! {

/// The texts of `names`, with an arrow between each and the next.
pub open spec fn arrow_joined(names: Seq<Seq<char>>) -> Seq<char>
    decreases names.len(),
{
    if names.len() == 0 {
        Seq::empty()
    } else if names.len() == 1 {
        names[0]
    } else {
        arrow_joined(names.drop_last()) + " -> "@ + names.last()
    }
}

/// Owns the callbacks by id. Registration is open until
/// [`complete_registration`](CallbacksContainer::complete_registration)
/// freezes it and derives the dependency graph.
pub struct CallbacksContainer<I, F> {
    // List of registered callbacks.
    callbacks: Vec<CallbackWithId<I, F>>,
    // Whether registration is closed and the tables below are filled.
    completed_registration: bool,
    // Maps identifiers to the callbacks that read them.
    input_to_callbacks: HashMap<I, Vec<CallbackId>>,
    // For each callback, the callbacks that read what it writes.
    callback_to_dependents: Vec<Vec<CallbackId>>,
    // For each callback, the callbacks that write what it reads.
    callback_to_ancestors: Vec<Vec<CallbackId>>,
    // For each callback, its position in the topological order.
    callback_to_topological_rank: Vec<usize>,
    // The callbacks by rank.
    topological_order: Vec<CallbackId>,
    // Returned by reference where a callback has no entry in a table.
    empty_callback_vec: Vec<CallbackId>,
}

impl<I, F> CallbacksContainer<I, F> {
    /// The registered callbacks, in registration order.
    pub closed spec fn entries(&self) -> Seq<CallbackWithId<I, F>> {
        self.callbacks@
    }

    /// Registration has been completed.
    pub closed spec fn is_frozen(&self) -> bool {
        self.completed_registration
    }

    /// The topological rank of a callback of a frozen registry.
    pub closed spec fn rank_of(&self, id: CallbackId) -> int {
        self.callback_to_topological_rank@[id.0 as int] as int
    }

    /// The lists of dependents, callback by callback, as the registry holds
    /// them once it is frozen.
    pub closed spec fn dependents_table(&self) -> Seq<Vec<CallbackId>> {
        self.callback_to_dependents@
    }

    /// The number of registered callbacks.
    pub open spec fn len(&self) -> nat {
        self.entries().len()
    }

    /// `id` names a registered callback.
    pub open spec fn contains(&self, id: CallbackId) -> bool {
        id.0 < self.entries().len()
    }

    /// The callback registered under `id`.
    pub open spec fn callback(&self, id: CallbackId) -> Callback<I, F> {
        self.entries()[id.0 as int].callback
    }

    /// Callback `id` declares `identifier` as an input.
    pub open spec fn is_triggered_by(&self, id: CallbackId, identifier: I) -> bool {
        graph::reads(self.entries(), id, identifier)
    }

    /// Callback `id` declares `identifier` as an output.
    pub open spec fn produces(&self, id: CallbackId, identifier: I) -> bool {
        graph::writes(self.entries(), id, identifier)
    }

    /// `consumer` reads an identifier that `producer` writes.
    pub open spec fn depends_on(&self, producer: CallbackId, consumer: CallbackId) -> bool {
        graph::depends_on(self.entries(), producer, consumer)
    }

    /// The names of the callbacks `ids`, in the same order.
    pub open spec fn names_of(&self, ids: Seq<CallbackId>) -> Seq<Seq<char>> {
        Seq::new(ids.len(), |k: int| self.callback(ids[k]).name@)
    }

    /// Each callback of `walk` is a dependent of the one before it.
    pub open spec fn is_dependency_walk(&self, walk: Seq<CallbackId>) -> bool {
        &&& walk.len() >= 1
        &&& forall|i: int| 0 <= i < walk.len() ==> self.contains(#[trigger] walk[i])
        &&& forall|i: int|
            0 <= i < walk.len() - 1 ==> self.depends_on(#[trigger] walk[i], walk[i + 1])
    }

    /// `walk` leads from a callback along dependencies back to itself.
    pub open spec fn is_dependency_cycle(&self, walk: Seq<CallbackId>) -> bool {
        &&& self.is_dependency_walk(walk)
        &&& walk.len() >= 2
        &&& walk.first() == walk.last()
    }

    /// No callback depends, directly or through others, on itself.
    pub open spec fn is_acyclic(&self) -> bool {
        forall|walk: Seq<CallbackId>| !self.is_dependency_cycle(walk)
    }

    /// The ranks number the callbacks `0..len` without repetition, and every
    /// callback ranks below its dependents.
    pub open spec fn ranks_are_topological(&self) -> bool {
        &&& forall|id: CallbackId|
            self.contains(id) ==> 0 <= #[trigger] self.rank_of(id) < self.len()
        &&& forall|u: CallbackId, v: CallbackId|
            self.contains(u) && self.contains(v) && u != v ==> #[trigger] self.rank_of(u)
                != #[trigger] self.rank_of(v)
        &&& forall|u: CallbackId, v: CallbackId| #[trigger]
            self.depends_on(u, v) ==> self.rank_of(u) < self.rank_of(v)
    }

    /// The table of dependents holds, for each callback, the dependents that
    /// the callbacks' declarations give it, and the callbacks are ranked in
    /// the order of a depth-first walk of that table.
    pub open spec fn is_ranked_by_depth_first_walk(&self) -> bool {
        &&& self.dependents_table().len() == self.len()
        &&& forall|u: CallbackId|
            self.contains(u) ==> (#[trigger] self.dependents_table()[u.0 as int])@
                == graph::dependents_of(self.entries(), u)
        &&& self.is_rank_order(toposort::depth_first_order(self.dependents_table()))
    }

    /// `order` lists the callbacks by rank.
    pub open spec fn is_rank_order(&self, order: Seq<CallbackId>) -> bool {
        &&& order.len() == self.len()
        &&& forall|r: int|
            0 <= r < order.len() ==> self.contains(#[trigger] order[r]) && self.rank_of(order[r])
                == r
        &&& forall|id: CallbackId|
            self.contains(id) ==> order[#[trigger] self.rank_of(id)] == id
    }

    /// The registry's tables agree with its callbacks.
    pub closed spec fn wf(&self) -> bool {
        &&& vstd::std_specs::hash::obeys_key_model::<I>()
        &&& forall|i: int|
            0 <= i < self.callbacks@.len() ==> (#[trigger] self.callbacks@[i]).id.0 == i
        &&& self.empty_callback_vec@.len() == 0
        &&& if self.completed_registration {
            &&& graph::is_input_index(self.callbacks@, self.input_to_callbacks@)
            &&& graph::is_dependents_table(self.callbacks@, self.callback_to_dependents@)
            &&& graph::is_ancestors_table(self.callbacks@, self.callback_to_ancestors@)
            &&& toposort::is_topological_order(
                self.callback_to_dependents@,
                self.topological_order@,
            )
            &&& self.topological_order@ == toposort::depth_first_order(
                self.callback_to_dependents@,
            )
            &&& toposort::is_topological_rank(
                self.callback_to_dependents@,
                self.callback_to_topological_rank@,
            )
            &&& forall|r: int|
                0 <= r < self.topological_order@.len()
                    ==> self.callback_to_topological_rank@[(
                #[trigger] self.topological_order@[r]).0 as int] == r
            &&& forall|v: CallbackId|
                v.0 < self.callbacks@.len()
                    ==> self.topological_order@[#[trigger] self.callback_to_topological_rank@[v.0 as int] as int]
                    == v
        } else {
            &&& self.input_to_callbacks@ == Map::<I, Vec<CallbackId>>::empty()
            &&& self.callback_to_dependents@.len() == 0
            &&& self.callback_to_ancestors@.len() == 0
            &&& self.callback_to_topological_rank@.len() == 0
            &&& self.topological_order@.len() == 0
        }
    }

    /// A frozen registry ranks its callbacks in the order of a depth-first
    /// walk of their dependents.
    pub proof fn lemma_ranked_by_depth_first_walk(&self)
        requires
            self.wf(),
            self.is_frozen(),
        ensures
            self.is_ranked_by_depth_first_walk(),
    {
        self.lemma_ranks_are_topological();
    }

    /// In a frozen registry every callback ranks below its dependents, and
    /// the ranks are the numbers below the number of callbacks, each once.
    pub proof fn lemma_ranks_are_topological(&self)
        requires
            self.wf(),
            self.is_frozen(),
        ensures
            self.ranks_are_topological(),
    {
        let deps = self.callback_to_dependents@;
        assert forall|u: CallbackId, v: CallbackId| #[trigger]
            self.depends_on(u, v) implies self.rank_of(u) < self.rank_of(v) by {
            assert(toposort::has_arc(deps, u, v));
        }
    }

    /// The identifiers of a well-formed registry can key a hash table.
    pub proof fn lemma_wf_identifiers(&self)
        requires
            self.wf(),
        ensures
            vstd::std_specs::hash::obeys_key_model::<I>(),
    {
    }

    /// Whether a registry is acyclic depends on its callbacks alone.
    pub proof fn lemma_acyclic_by_entries(&self, other: &Self)
        requires
            self.entries() == other.entries(),
        ensures
            self.is_acyclic() == other.is_acyclic(),
    {
        assert forall|walk: Seq<CallbackId>|
            self.is_dependency_cycle(walk) == other.is_dependency_cycle(walk) by {
            if self.is_dependency_cycle(walk) {
                assert forall|i: int| 0 <= i < walk.len() - 1 implies other.depends_on(
                    #[trigger] walk[i],
                    walk[i + 1],
                ) by {
                    assert(self.depends_on(walk[i], walk[i + 1]));
                }
            }
            if other.is_dependency_cycle(walk) {
                assert forall|i: int| 0 <= i < walk.len() - 1 implies self.depends_on(
                    #[trigger] walk[i],
                    walk[i + 1],
                ) by {
                    assert(other.depends_on(walk[i], walk[i + 1]));
                }
            }
        }
    }

    /// A registry whose callbacks can be ranked has no dependency cycle.
    pub proof fn lemma_frozen_is_acyclic(&self)
        requires
            self.wf(),
            self.is_frozen(),
        ensures
            self.is_acyclic(),
    {
        let deps = self.callback_to_dependents@;
        toposort::lemma_ranked_graph_is_acyclic(deps, self.callback_to_topological_rank@);
        assert forall|walk: Seq<CallbackId>| !self.is_dependency_cycle(walk) by {
            if self.is_dependency_cycle(walk) {
                assert forall|i: int| 0 <= i < walk.len() - 1 implies toposort::has_arc(
                    deps,
                    #[trigger] walk[i],
                    walk[i + 1],
                ) by {
                    assert(self.depends_on(walk[i], walk[i + 1]));
                }
                assert(toposort::is_cycle(deps, walk));
            }
        }
    }
}

impl<I: Hash + Eq + Copy, F> CallbacksContainer<I, F> {
    /// An empty registry, open for registration.
    pub fn new() -> (container: CallbacksContainer<I, F>)
        requires
            vstd::std_specs::hash::obeys_key_model::<I>(),
        ensures
            container.wf(),
            !container.is_frozen(),
            container.entries().len() == 0,
    {
        CallbacksContainer {
            callbacks: Vec::new(),
            completed_registration: false,
            input_to_callbacks: HashMap::new(),
            callback_to_dependents: Vec::new(),
            callback_to_ancestors: Vec::new(),
            callback_to_topological_rank: Vec::new(),
            topological_order: Vec::new(),
            empty_callback_vec: Vec::new(),
        }
    }

    /// Registers `callback` under the next free id, and returns the id.
    pub fn add_callback(&mut self, callback: Callback<I, F>) -> (id: CallbackId)
        requires
            old(self).wf(),
            !old(self).is_frozen(),
        ensures
            final(self).wf(),
            !final(self).is_frozen(),
            id == CallbackId(old(self).entries().len() as usize),
            final(self).entries() == old(self).entries().push(CallbackWithId { id, callback }),
    {
        if self.completed_registration {
            vstd::pervasive::unreached::<()>();
        }
        let id = CallbackId(self.callbacks.len());
        self.callbacks.push(CallbackWithId { id, callback });
        id
    }

    /// Closes registration and derives the dependency graph and its
    /// topological ranking, or reports a dependency cycle and leaves the
    /// registry open.
    ///
    /// The cycle starts and ends at the same callback, and each callback in
    /// it is a dependent of the one before it.
    pub fn try_complete_registration(&mut self) -> (result: Result<(), Vec<CallbackId>>)
        requires
            old(self).wf(),
            !old(self).is_frozen(),
        ensures
            final(self).wf(),
            final(self).entries() == old(self).entries(),
            result is Ok <==> old(self).is_acyclic(),
            match result {
                Ok(_) => {
                    &&& final(self).is_frozen()
                    &&& final(self).ranks_are_topological()
                    &&& final(self).is_ranked_by_depth_first_walk()
                },
                Err(cycle) => !final(self).is_frozen() && final(self).is_dependency_cycle(cycle@),
            },
    {
        let index = graph::build_input_index(&self.callbacks);
        let dependents = graph::build_dependents(&self.callbacks, &index);
        let ancestors = graph::build_ancestors(&dependents);
        match toposort::topological_order(&dependents) {
            Err(cycle) => {
                proof {
                    let walk = cycle@;
                    assert forall|i: int| 0 <= i < walk.len() - 1 implies self.depends_on(
                        #[trigger] walk[i],
                        walk[i + 1],
                    ) by {
                        assert(toposort::has_arc(dependents@, walk[i], walk[i + 1]));
                    }
                    assert(self.is_dependency_cycle(walk));
                    self.lemma_acyclic_by_entries(old(self));
                }
                Err(cycle)
            },
            Ok(order) => {
                let rank = graph::ranks_from_order(&order);
                let n = dependents.len();
                proof {
                    graph::lemma_order_gives_rank(dependents@, order@, rank@);
                    assert forall|v: CallbackId| v.0 < ancestors@.len() implies (
                    #[trigger] ancestors@[v.0 as int])@ == graph::ancestors_of(
                        self.callbacks@,
                        v,
                    ) by {
                        graph::lemma_ancestors_by_table(self.callbacks@, dependents@, n as nat, v);
                    }
                }
                self.input_to_callbacks = index;
                self.callback_to_dependents = dependents;
                self.callback_to_ancestors = ancestors;
                self.callback_to_topological_rank = rank;
                self.topological_order = order;
                self.completed_registration = true;
                proof {
                    self.lemma_ranks_are_topological();
                    self.lemma_ranked_by_depth_first_walk();
                    self.lemma_frozen_is_acyclic();
                    self.lemma_acyclic_by_entries(old(self));
                }
                Ok(())
            },
        }
    }

    /// Closes registration and derives the dependency graph and its
    /// topological ranking.
    pub fn complete_registration(&mut self)
        requires
            old(self).wf(),
            !old(self).is_frozen(),
            old(self).is_acyclic(),
        ensures
            final(self).wf(),
            final(self).is_frozen(),
            final(self).entries() == old(self).entries(),
            final(self).ranks_are_topological(),
            final(self).is_ranked_by_depth_first_walk(),
    {
        match self.try_complete_registration() {
            Ok(_) => {},
            Err(_) => {
                vstd::pervasive::unreached::<()>();
            },
        }
    }

    /// The callbacks that read `identifier`. Empty before registration is
    /// complete.
    pub fn get_callbacks_with_input(&self, identifier: &I) -> (ids: &Vec<CallbackId>)
        requires
            self.wf(),
        ensures
            self.is_frozen() ==> ids@ == graph::readers_of(self.entries(), *identifier),
            self.is_frozen() ==> forall|id: CallbackId| #[trigger]
                ids@.contains(id) <==> self.is_triggered_by(id, *identifier),
            !self.is_frozen() ==> ids@.len() == 0,
    {
        match self.input_to_callbacks.get(identifier) {
            Some(callbacks) => {
                proof {
                    if self.is_frozen() {
                        assert forall|id: CallbackId| #[trigger]
                            callbacks@.contains(id) <==> self.is_triggered_by(
                                id,
                                *identifier,
                            ) by {
                            assert(graph::listed(self.input_to_callbacks@, *identifier, id)
                                <==> callbacks@.contains(id));
                        }
                        assert(graph::entry_list(self.input_to_callbacks@, *identifier)
                            == callbacks@);
                    }
                }
                callbacks
            },
            None => {
                proof {
                    if self.is_frozen() {
                        assert forall|id: CallbackId| #[trigger]
                            self.empty_callback_vec@.contains(id) <==> self.is_triggered_by(
                                id,
                                *identifier,
                            ) by {
                            assert(!graph::listed(self.input_to_callbacks@, *identifier, id));
                        }
                        assert(graph::entry_list(self.input_to_callbacks@, *identifier)
                            =~= self.empty_callback_vec@);
                    }
                }
                &self.empty_callback_vec
            },
        }
    }
}

impl<I, F> CallbacksContainer<I, F> {
    /// The callback registered under `id`.
    pub fn get_callback(&self, id: &CallbackId) -> (callback: &Callback<I, F>)
        requires
            self.contains(*id),
        ensures
            *callback == self.callback(*id),
    {
        &self.callbacks[id.callback_index()].callback
    }

    /// Whether registration has been completed.
    pub fn registration_completed(&self) -> (completed: bool)
        ensures
            completed == self.is_frozen(),
    {
        self.completed_registration
    }

    /// All registered callbacks with their ids, in registration order.
    pub fn all_callbacks(&self) -> (all: &Vec<CallbackWithId<I, F>>)
        ensures
            all@ == self.entries(),
    {
        &self.callbacks
    }

    /// The callbacks that read what callback `id` writes. Empty before
    /// registration is complete, and for an id that is not registered.
    pub fn get_dependents(&self, id: &CallbackId) -> (ids: &Vec<CallbackId>)
        requires
            self.wf(),
        ensures
            self.is_frozen() && self.contains(*id) ==> ids@ == graph::dependents_of(
                self.entries(),
                *id,
            ),
            self.is_frozen() ==> forall|v: CallbackId| #[trigger]
                ids@.contains(v) <==> self.depends_on(*id, v),
            !self.is_frozen() || !self.contains(*id) ==> ids@.len() == 0,
    {
        if id.0 < self.callback_to_dependents.len() {
            proof {
                assert forall|v: CallbackId| #[trigger]
                    self.callback_to_dependents@[id.0 as int]@.contains(v) <==> self.depends_on(
                        *id,
                        v,
                    ) by {
                    assert(toposort::has_arc(self.callback_to_dependents@, *id, v)
                        <==> self.depends_on(*id, v));
                    if self.callback_to_dependents@[id.0 as int]@.contains(v) {
                        let k = choose|k: int|
                            0 <= k < self.callback_to_dependents@[id.0 as int]@.len()
                                && self.callback_to_dependents@[id.0 as int]@[k] == v;
                        assert(self.callback_to_dependents@[id.0 as int]@[k].0
                            < self.callback_to_dependents@.len());
                    }
                }
            }
            &self.callback_to_dependents[id.0]
        } else {
            proof {
                if self.is_frozen() {
                    assert forall|v: CallbackId| #[trigger]
                        self.empty_callback_vec@.contains(v) <==> self.depends_on(*id, v) by {
                        assert(!toposort::has_arc(self.callback_to_dependents@, *id, v));
                    }
                }
            }
            &self.empty_callback_vec
        }
    }

    /// The callbacks that write what callback `id` reads. Empty before
    /// registration is complete, and for an id that is not registered.
    pub fn get_ancestors(&self, id: &CallbackId) -> (ids: &Vec<CallbackId>)
        requires
            self.wf(),
        ensures
            self.is_frozen() && self.contains(*id) ==> ids@ == graph::ancestors_of(
                self.entries(),
                *id,
            ),
            self.is_frozen() ==> forall|u: CallbackId| #[trigger]
                ids@.contains(u) <==> self.depends_on(u, *id),
            !self.is_frozen() || !self.contains(*id) ==> ids@.len() == 0,
    {
        if id.0 < self.callback_to_ancestors.len() {
            proof {
                assert forall|u: CallbackId| #[trigger]
                    self.callback_to_ancestors@[id.0 as int]@.contains(u) <==> self.depends_on(
                        u,
                        *id,
                    ) by {
                    assert(toposort::has_arc(self.callback_to_ancestors@, *id, u)
                        <==> self.depends_on(u, *id));
                    if self.callback_to_ancestors@[id.0 as int]@.contains(u) {
                        let k = choose|k: int|
                            0 <= k < self.callback_to_ancestors@[id.0 as int]@.len()
                                && self.callback_to_ancestors@[id.0 as int]@[k] == u;
                        assert(self.callback_to_ancestors@[id.0 as int]@[k].0
                            < self.callback_to_ancestors@.len());
                    }
                }
            }
            &self.callback_to_ancestors[id.0]
        } else {
            proof {
                if self.is_frozen() {
                    assert forall|u: CallbackId| #[trigger]
                        self.empty_callback_vec@.contains(u) <==> self.depends_on(u, *id) by {
                        assert(!toposort::has_arc(self.callback_to_ancestors@, *id, u));
                    }
                }
            }
            &self.empty_callback_vec
        }
    }

    /// The position of callback `id` in the topological order: every
    /// callback ranks below its dependents.
    pub fn get_topological_rank(&self, id: &CallbackId) -> (rank: usize)
        requires
            self.wf(),
            self.is_frozen(),
            self.contains(*id),
        ensures
            rank == self.rank_of(*id),
            rank < self.len(),
    {
        proof {
            self.lemma_ranks_are_topological();
        }
        self.callback_to_topological_rank[id.0]
    }

    /// The callbacks by rank, lowest first. Empty before registration is
    /// complete.
    pub fn get_topological_order(&self) -> (order: &Vec<CallbackId>)
        requires
            self.wf(),
        ensures
            self.is_frozen() ==> self.is_rank_order(order@),
            self.is_frozen() ==> order@ == toposort::depth_first_order(self.dependents_table()),
            !self.is_frozen() ==> order@.len() == 0,
    {
        proof {
            if self.is_frozen() {
                self.lemma_ranks_are_topological();
            }
        }
        &self.topological_order
    }

    /// The names of the callbacks `ids`, with an arrow between each and the
    /// next: how a dependency cycle is shown.
    pub fn describe_path(&self, ids: &Vec<CallbackId>) -> (text: String)
        requires
            forall|k: int| 0 <= k < ids@.len() ==> self.contains(#[trigger] ids@[k]),
        ensures
            text@ == arrow_joined(self.names_of(ids@)),
    {
        let mut text = String::new();
        let n = ids.len();
        let mut k: usize = 0;
        let ghost names = self.names_of(ids@);
        assert(names.take(0) =~= Seq::<Seq<char>>::empty());
        assert(text@ =~= Seq::<char>::empty());
        while k < n
            invariant
                n == ids@.len(),
                names == self.names_of(ids@),
                0 <= k <= n,
                forall|j: int| 0 <= j < ids@.len() ==> self.contains(#[trigger] ids@[j]),
                text@ == arrow_joined(names.take(k as int)),
            decreases n - k,
        {
            if k > 0 {
                text.append(" -> ");
            }
            text.append(self.get_callback(&ids[k]).name);
            proof {
                let longer = names.take(k + 1);
                assert(longer.drop_last() =~= names.take(k as int));
                assert(longer.last() == self.callback(ids@[k as int]).name@);
                if k == 0 {
                    assert(text@ =~= longer[0]);
                }
            }
            k += 1;
        }
        assert(names.take(n as int) =~= names);
        text
    }

    /// The names of the callbacks `ids`, in the same order.
    pub fn get_callback_names(&self, ids: &Vec<CallbackId>) -> (names: Vec<&'static str>)
        requires
            forall|k: int| 0 <= k < ids@.len() ==> self.contains(#[trigger] ids@[k]),
        ensures
            names@.len() == ids@.len(),
            forall|k: int|
                0 <= k < ids@.len() ==> #[trigger] names@[k] == self.callback(ids@[k]).name,
    {
        let mut names: Vec<&'static str> = Vec::new();
        let n = ids.len();
        let mut k: usize = 0;
        while k < n
            invariant
                n == ids@.len(),
                0 <= k <= n,
                forall|j: int| 0 <= j < ids@.len() ==> self.contains(#[trigger] ids@[j]),
                names@.len() == k,
                forall|j: int| 0 <= j < k ==> #[trigger] names@[j] == self.callback(ids@[j]).name,
            decreases n - k,
        {
            names.push(self.get_callback(&ids[k]).name);
            k += 1;
        }
        names
    }
}

} // verus!
