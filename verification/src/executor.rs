//! The scheduler's front: registration, planning, and the queries that tell
//! a caller which values a plan needs.

use vstd::prelude::*;
use std::collections::HashSet;
use std::hash::Hash;
use crate::callback::{Callback, CallbackId};
use crate::graph;
use crate::plan;
use crate::plan::ExecutionPlan;
use crate::planner;
use crate::registry::CallbacksContainer;

verus! {

/// Plans and runs callbacks over a registry.
pub struct Executor<I, F> {
    pub callbacks_container: CallbacksContainer<I, F>,
}

/// One of the first `upto` callbacks of `ids` reads `x`.
pub open spec fn reads_within<I, F>(
    c: &CallbacksContainer<I, F>,
    ids: Seq<CallbackId>,
    upto: int,
    x: I,
) -> bool {
    exists|k: int| 0 <= k < upto && k < ids.len() && c.is_triggered_by(#[trigger] ids[k], x)
}

/// One of the first `upto` callbacks of `ids` writes `x`.
pub open spec fn writes_within<I, F>(
    c: &CallbacksContainer<I, F>,
    ids: Seq<CallbackId>,
    upto: int,
    x: I,
) -> bool {
    exists|k: int| 0 <= k < upto && k < ids.len() && c.produces(#[trigger] ids[k], x)
}

/// One of the first `upto` callbacks of `ids` reads `x`, and `x` is neither
/// in the update nor written by a callback that stands before that one.
pub open spec fn needs_state<I, F>(
    c: &CallbacksContainer<I, F>,
    updated: Seq<I>,
    ids: Seq<CallbackId>,
    upto: int,
    x: I,
) -> bool {
    exists|k: int|
        0 <= k < upto && k < ids.len() && c.is_triggered_by(#[trigger] ids[k], x)
            && !updated.contains(x) && !writes_within(c, ids, k, x)
}

/// One of the first `upto` registered callbacks reads `x`.
pub open spec fn read_by_first<I, F>(c: &CallbacksContainer<I, F>, upto: int, x: I) -> bool {
    exists|id: CallbackId| id.0 < upto && #[trigger] c.is_triggered_by(id, x)
}

/// One of the first `upto` registered callbacks writes `x`.
pub open spec fn written_by_first<I, F>(c: &CallbacksContainer<I, F>, upto: int, x: I) -> bool {
    exists|id: CallbackId| id.0 < upto && #[trigger] c.produces(id, x)
}

/// Some registered callback reads `x`, and none writes it.
pub open spec fn is_source<I, F>(c: &CallbacksContainer<I, F>, x: I) -> bool {
    &&& exists|id: CallbackId| #[trigger] c.is_triggered_by(id, x)
    &&& forall|id: CallbackId| !#[trigger] c.produces(id, x)
}

/// No identifier of the update, and none that is written before every
/// callback that reads it, has to come from the state store.
pub proof fn lemma_required_state_skips_available<I, F>(
    c: &CallbacksContainer<I, F>,
    updated: Seq<I>,
    ids: Seq<CallbackId>,
    x: I,
)
    ensures
        updated.contains(x) ==> !needs_state(c, updated, ids, ids.len() as int, x),
        (forall|k: int|
            0 <= k < ids.len() && c.is_triggered_by(#[trigger] ids[k], x) ==> writes_within(
                c,
                ids,
                k,
                x,
            )) ==> !needs_state(c, updated, ids, ids.len() as int, x),
{
}

/// Whether one of the first `k + 1` callbacks reads `x`, by the first `k`
/// and the one after them.
proof fn lemma_reads_next<I, F>(c: &CallbacksContainer<I, F>, ids: Seq<CallbackId>, k: int, x: I)
    requires
        0 <= k < ids.len(),
    ensures
        reads_within(c, ids, k + 1, x) <==> reads_within(c, ids, k, x) || c.is_triggered_by(
            ids[k],
            x,
        ),
{
    if reads_within(c, ids, k, x) {
        let j = choose|j: int|
            0 <= j < k && j < ids.len() && c.is_triggered_by(#[trigger] ids[j], x);
        assert(c.is_triggered_by(ids[j], x));
    }
    if c.is_triggered_by(ids[k], x) {
        assert(reads_within(c, ids, k + 1, x));
    }
}

/// Whether one of the first `k + 1` callbacks writes `x`, by the first `k`
/// and the one after them.
proof fn lemma_writes_next<I, F>(c: &CallbacksContainer<I, F>, ids: Seq<CallbackId>, k: int, x: I)
    requires
        0 <= k < ids.len(),
    ensures
        writes_within(c, ids, k + 1, x) <==> writes_within(c, ids, k, x) || c.produces(ids[k], x),
{
    if writes_within(c, ids, k, x) {
        let j = choose|j: int| 0 <= j < k && j < ids.len() && c.produces(#[trigger] ids[j], x);
        assert(c.produces(ids[j], x));
    }
    if c.produces(ids[k], x) {
        assert(writes_within(c, ids, k + 1, x));
    }
}

/// Whether the first `k + 1` callbacks need `x` from the state store, by the
/// first `k` and the one after them.
proof fn lemma_needs_next<I, F>(
    c: &CallbacksContainer<I, F>,
    updated: Seq<I>,
    ids: Seq<CallbackId>,
    k: int,
    x: I,
)
    requires
        0 <= k < ids.len(),
    ensures
        needs_state(c, updated, ids, k + 1, x) <==> needs_state(c, updated, ids, k, x) || (
        c.is_triggered_by(ids[k], x) && !updated.contains(x) && !writes_within(c, ids, k, x)),
{
    if needs_state(c, updated, ids, k, x) {
        let j = choose|j: int|
            0 <= j < k && j < ids.len() && c.is_triggered_by(#[trigger] ids[j], x)
                && !updated.contains(x) && !writes_within(c, ids, j, x);
        assert(c.is_triggered_by(ids[j], x));
    }
    if c.is_triggered_by(ids[k], x) && !updated.contains(x) && !writes_within(c, ids, k, x) {
        assert(needs_state(c, updated, ids, k + 1, x));
    }
}

/// Adds every entry of `items` to `set`.
fn insert_all<I: Hash + Eq + Copy>(set: &mut HashSet<I>, items: &Vec<I>)
    requires
        vstd::std_specs::hash::obeys_key_model::<I>(),
    ensures
        forall|x: I| #[trigger]
            final(set)@.contains(x) <==> old(set)@.contains(x) || items@.contains(x),
{
    let n = items.len();
    let mut j: usize = 0;
    while j < n
        invariant
            vstd::std_specs::hash::obeys_key_model::<I>(),
            n == items@.len(),
            0 <= j <= n,
            forall|x: I| #[trigger]
                set@.contains(x) <==> old(set)@.contains(x) || graph::among_first(
                    items@,
                    j as int,
                    x,
                ),
        decreases n - j,
    {
        set.insert(items[j]);
        proof {
            assert forall|x: I| #[trigger]
                set@.contains(x) <==> old(set)@.contains(x) || graph::among_first(
                    items@,
                    j + 1,
                    x,
                ) by {
                graph::lemma_among_next(items@, j as int, x);
            }
        }
        j += 1;
    }
    proof {
        assert forall|x: I| #[trigger]
            set@.contains(x) <==> old(set)@.contains(x) || items@.contains(x) by {
            graph::lemma_among_all(items@, x);
        }
    }
}

/// Takes every entry of `items` out of `set`.
fn remove_all<I: Hash + Eq + Copy>(set: &mut HashSet<I>, items: &Vec<I>)
    requires
        vstd::std_specs::hash::obeys_key_model::<I>(),
    ensures
        forall|x: I| #[trigger]
            final(set)@.contains(x) <==> old(set)@.contains(x) && !items@.contains(x),
{
    let n = items.len();
    let mut j: usize = 0;
    while j < n
        invariant
            vstd::std_specs::hash::obeys_key_model::<I>(),
            n == items@.len(),
            0 <= j <= n,
            forall|x: I| #[trigger]
                set@.contains(x) <==> old(set)@.contains(x) && !graph::among_first(
                    items@,
                    j as int,
                    x,
                ),
        decreases n - j,
    {
        let item = items[j];
        if set.contains(&item) {
            set.remove(&item);
        }
        proof {
            assert forall|x: I| #[trigger]
                set@.contains(x) <==> old(set)@.contains(x) && !graph::among_first(
                    items@,
                    j + 1,
                    x,
                ) by {
                graph::lemma_among_next(items@, j as int, x);
            }
        }
        j += 1;
    }
    proof {
        assert forall|x: I| #[trigger]
            set@.contains(x) <==> old(set)@.contains(x) && !items@.contains(x) by {
            graph::lemma_among_all(items@, x);
        }
    }
}

/// Adds to `set` every entry of `items` that `available` does not hold.
fn insert_missing<I: Hash + Eq + Copy>(set: &mut HashSet<I>, available: &HashSet<I>, items: &Vec<I>)
    requires
        vstd::std_specs::hash::obeys_key_model::<I>(),
    ensures
        forall|x: I| #[trigger]
            final(set)@.contains(x) <==> old(set)@.contains(x) || (items@.contains(x)
                && !available@.contains(x)),
{
    let n = items.len();
    let mut j: usize = 0;
    while j < n
        invariant
            vstd::std_specs::hash::obeys_key_model::<I>(),
            n == items@.len(),
            0 <= j <= n,
            forall|x: I| #[trigger]
                set@.contains(x) <==> old(set)@.contains(x) || (graph::among_first(
                    items@,
                    j as int,
                    x,
                ) && !available@.contains(x)),
        decreases n - j,
    {
        let item = items[j];
        if !available.contains(&item) {
            set.insert(item);
        }
        proof {
            assert forall|x: I| #[trigger]
                set@.contains(x) <==> old(set)@.contains(x) || (graph::among_first(
                    items@,
                    j + 1,
                    x,
                ) && !available@.contains(x)) by {
                graph::lemma_among_next(items@, j as int, x);
            }
        }
        j += 1;
    }
    proof {
        assert forall|x: I| #[trigger]
            set@.contains(x) <==> old(set)@.contains(x) || (items@.contains(x)
                && !available@.contains(x)) by {
            graph::lemma_among_all(items@, x);
        }
    }
}

impl<I: Hash + Eq + Copy, F> Executor<I, F> {
    /// The registry's tables agree with its callbacks.
    pub open spec fn wf(&self) -> bool {
        self.callbacks_container.wf()
    }

    /// `result` is what planning an update of `updated` gives: the execution
    /// plan, once registration is complete, and three empty phases before.
    pub open spec fn is_plan_for(&self, updated: Set<I>, result: ExecutionPlan) -> bool {
        if self.callbacks_container.is_frozen() {
            plan::is_execution_plan(&self.callbacks_container, updated, result)
        } else {
            &&& result.client_pre_plan@.len() == 0
            &&& result.server_plan@.len() == 0
            &&& result.client_post_plan@.len() == 0
        }
    }

    /// An executor over an empty registry.
    pub fn new() -> (executor: Executor<I, F>)
        requires
            vstd::std_specs::hash::obeys_key_model::<I>(),
        ensures
            executor.wf(),
            !executor.callbacks_container.is_frozen(),
            executor.callbacks_container.entries().len() == 0,
    {
        Executor { callbacks_container: CallbacksContainer::new() }
    }

    /// Registers `callback` under the next free id, and returns the id.
    pub fn register_callback(&mut self, callback: Callback<I, F>) -> (id: CallbackId)
        requires
            old(self).wf(),
            !old(self).callbacks_container.is_frozen(),
        ensures
            final(self).wf(),
            !final(self).callbacks_container.is_frozen(),
            id == CallbackId(old(self).callbacks_container.entries().len() as usize),
            final(self).callbacks_container.entries() == old(self).callbacks_container.entries().push(crate::callback::CallbackWithId { id, callback }),
    {
        self.callbacks_container.add_callback(callback)
    }

    /// Closes registration and derives the dependency graph and its ranking.
    pub fn complete_registration(&mut self)
        requires
            old(self).wf(),
            !old(self).callbacks_container.is_frozen(),
            old(self).callbacks_container.is_acyclic(),
        ensures
            final(self).wf(),
            final(self).callbacks_container.is_frozen(),
            final(self).callbacks_container.entries() == old(self).callbacks_container.entries(),
            final(self).callbacks_container.ranks_are_topological(),
            final(self).callbacks_container.is_ranked_by_depth_first_walk(),
    {
        self.callbacks_container.complete_registration();
    }

    /// Closes registration and derives the dependency graph and its ranking,
    /// or reports a dependency cycle and leaves registration open.
    pub fn try_complete_registration(&mut self) -> (result: Result<(), Vec<CallbackId>>)
        requires
            old(self).wf(),
            !old(self).callbacks_container.is_frozen(),
        ensures
            final(self).wf(),
            final(self).callbacks_container.entries() == old(self).callbacks_container.entries(),
            result is Ok <==> old(self).callbacks_container.is_acyclic(),
            match result {
                Ok(_) => {
                    &&& final(self).callbacks_container.is_frozen()
                    &&& final(self).callbacks_container.ranks_are_topological()
                    &&& final(self).callbacks_container.is_ranked_by_depth_first_walk()
                },
                Err(cycle) => !final(self).callbacks_container.is_frozen() && final(self).callbacks_container.is_dependency_cycle(cycle@),
            },
    {
        self.callbacks_container.try_complete_registration()
    }

    /// Closes registration and derives the dependency graph and its ranking.
    pub fn init_callbacks(&mut self)
        requires
            old(self).wf(),
            !old(self).callbacks_container.is_frozen(),
            old(self).callbacks_container.is_acyclic(),
        ensures
            final(self).wf(),
            final(self).callbacks_container.is_frozen(),
            final(self).callbacks_container.entries() == old(self).callbacks_container.entries(),
            final(self).callbacks_container.ranks_are_topological(),
            final(self).callbacks_container.is_ranked_by_depth_first_walk(),
    {
        self.callbacks_container.complete_registration();
    }

    /// The plan for an update of the identifiers `updated_inputs`: the
    /// callbacks that read one of them and everything that depends on those,
    /// by growing rank, each in its phase. Empty before registration is
    /// complete.
    pub fn get_execution_plan(&self, updated_inputs: &HashSet<I>) -> (result: ExecutionPlan)
        requires
            self.wf(),
        ensures
            self.is_plan_for(updated_inputs@, result),
    {
        if self.callbacks_container.registration_completed() {
            planner::compute_plan(&self.callbacks_container, updated_inputs)
        } else {
            ExecutionPlan::new()
        }
    }

    /// Every identifier that a callback of `plan` reads: what a caller has to
    /// supply before it runs the plan.
    pub fn get_required_args(&self, plan: &Vec<CallbackId>) -> (args: HashSet<I>)
        requires
            self.wf(),
            forall|k: int|
                0 <= k < plan@.len() ==> self.callbacks_container.contains(#[trigger] plan@[k]),
        ensures
            forall|x: I| #[trigger]
                args@.contains(x) <==> reads_within(
                    &self.callbacks_container,
                    plan@,
                    plan@.len() as int,
                    x,
                ),
    {
        let c = &self.callbacks_container;
        proof {
            c.lemma_wf_identifiers();
        }
        let mut args: HashSet<I> = HashSet::new();
        let n = plan.len();
        let mut k: usize = 0;
        while k < n
            invariant
                vstd::std_specs::hash::obeys_key_model::<I>(),
                c == &self.callbacks_container,
                n == plan@.len(),
                0 <= k <= n,
                forall|j: int| 0 <= j < plan@.len() ==> c.contains(#[trigger] plan@[j]),
                forall|x: I| #[trigger] args@.contains(x) <==> reads_within(c, plan@, k as int, x),
            decreases n - k,
        {
            let callback = c.get_callback(&plan[k]);
            insert_all(&mut args, &callback.inputs);
            proof {
                assert forall|x: I| #[trigger]
                    args@.contains(x) <==> reads_within(c, plan@, k + 1, x) by {
                    lemma_reads_next(c, plan@, k as int, x);
                }
            }
            k += 1;
        }
        args
    }

    /// The identifiers that have to be read from the state store to run
    /// `execution_plan` after an update of `updated_inputs`: each identifier
    /// that a callback reads and that neither the update nor an earlier
    /// callback of the plan provides.
    pub fn get_required_state(
        &self,
        updated_inputs: &Vec<I>,
        execution_plan: &Vec<CallbackId>,
    ) -> (required_state: HashSet<I>)
        requires
            self.wf(),
            forall|k: int|
                0 <= k < execution_plan@.len() ==> self.callbacks_container.contains(
                    #[trigger] execution_plan@[k],
                ),
        ensures
            forall|x: I| #[trigger]
                required_state@.contains(x) <==> needs_state(
                    &self.callbacks_container,
                    updated_inputs@,
                    execution_plan@,
                    execution_plan@.len() as int,
                    x,
                ),
            forall|x: I| updated_inputs@.contains(x) ==> !required_state@.contains(x),
    {
        let c = &self.callbacks_container;
        proof {
            c.lemma_wf_identifiers();
        }
        let mut available_inputs: HashSet<I> = HashSet::new();
        insert_all(&mut available_inputs, updated_inputs);
        let mut required_state: HashSet<I> = HashSet::new();
        let n = execution_plan.len();
        let mut k: usize = 0;
        while k < n
            invariant
                vstd::std_specs::hash::obeys_key_model::<I>(),
                c == &self.callbacks_container,
                n == execution_plan@.len(),
                0 <= k <= n,
                forall|j: int|
                    0 <= j < execution_plan@.len() ==> c.contains(#[trigger] execution_plan@[j]),
                forall|x: I| #[trigger]
                    available_inputs@.contains(x) <==> updated_inputs@.contains(x) || writes_within(
                        c,
                        execution_plan@,
                        k as int,
                        x,
                    ),
                forall|x: I| #[trigger]
                    required_state@.contains(x) <==> needs_state(
                        c,
                        updated_inputs@,
                        execution_plan@,
                        k as int,
                        x,
                    ),
            decreases n - k,
        {
            let callback = c.get_callback(&execution_plan[k]);
            insert_missing(&mut required_state, &available_inputs, &callback.inputs);
            insert_all(&mut available_inputs, &callback.outputs);
            proof {
                assert forall|x: I| #[trigger]
                    available_inputs@.contains(x) <==> updated_inputs@.contains(x)
                        || writes_within(c, execution_plan@, k + 1, x) by {
                    lemma_writes_next(c, execution_plan@, k as int, x);
                }
                assert forall|x: I| #[trigger]
                    required_state@.contains(x) <==> needs_state(
                        c,
                        updated_inputs@,
                        execution_plan@,
                        k + 1,
                        x,
                    ) by {
                    lemma_needs_next(c, updated_inputs@, execution_plan@, k as int, x);
                }
            }
            k += 1;
        }
        required_state
    }

    /// The identifiers that some callback reads and none writes: what has to
    /// be supplied to start the system from nothing.
    pub fn get_required_initialization_inputs(&self) -> (required_inputs: HashSet<I>)
        requires
            self.wf(),
        ensures
            forall|x: I| #[trigger]
                required_inputs@.contains(x) <==> is_source(&self.callbacks_container, x),
    {
        let c = &self.callbacks_container;
        proof {
            c.lemma_wf_identifiers();
        }
        let all = c.all_callbacks();
        let n = all.len();
        let mut required_inputs: HashSet<I> = HashSet::new();
        let mut i: usize = 0;
        while i < n
            invariant
                vstd::std_specs::hash::obeys_key_model::<I>(),
                all@ == c.entries(),
                n == all@.len(),
                0 <= i <= n,
                forall|x: I| #[trigger]
                    required_inputs@.contains(x) <==> read_by_first(c, i as int, x),
            decreases n - i,
        {
            insert_all(&mut required_inputs, &all[i].callback.inputs);
            proof {
                assert forall|x: I| #[trigger]
                    required_inputs@.contains(x) <==> read_by_first(c, i + 1, x) by {
                    if read_by_first(c, i as int, x) {
                        let id = choose|id: CallbackId| id.0 < i && #[trigger] c.is_triggered_by(id, x);
                        assert(c.is_triggered_by(id, x));
                    }
                    if all@[i as int].callback.inputs@.contains(x) {
                        assert(c.is_triggered_by(CallbackId(i), x));
                    }
                    if read_by_first(c, i + 1, x) {
                        let id = choose|id: CallbackId|
                            id.0 < i + 1 && #[trigger] c.is_triggered_by(id, x);
                        if id.0 < i {
                            assert(read_by_first(c, i as int, x));
                        } else {
                            assert(id == CallbackId(i));
                        }
                    }
                }
            }
            i += 1;
        }
        let mut j: usize = 0;
        while j < n
            invariant
                vstd::std_specs::hash::obeys_key_model::<I>(),
                all@ == c.entries(),
                n == all@.len(),
                0 <= j <= n,
                forall|x: I| #[trigger]
                    required_inputs@.contains(x) <==> read_by_first(c, n as int, x)
                        && !written_by_first(c, j as int, x),
            decreases n - j,
        {
            remove_all(&mut required_inputs, &all[j].callback.outputs);
            proof {
                assert forall|x: I| #[trigger]
                    required_inputs@.contains(x) <==> read_by_first(c, n as int, x)
                        && !written_by_first(c, j + 1, x) by {
                    if written_by_first(c, j as int, x) {
                        let id = choose|id: CallbackId| id.0 < j && #[trigger] c.produces(id, x);
                        assert(c.produces(id, x));
                    }
                    if all@[j as int].callback.outputs@.contains(x) {
                        assert(c.produces(CallbackId(j), x));
                    }
                    if written_by_first(c, j + 1, x) {
                        let id = choose|id: CallbackId| id.0 < j + 1 && #[trigger] c.produces(id, x);
                        if id.0 < j {
                            assert(written_by_first(c, j as int, x));
                        } else {
                            assert(id == CallbackId(j));
                        }
                    }
                }
            }
            j += 1;
        }
        proof {
            assert forall|x: I| #[trigger]
                required_inputs@.contains(x) <==> is_source(c, x) by {
                if read_by_first(c, n as int, x) {
                    let id = choose|id: CallbackId| id.0 < n && #[trigger] c.is_triggered_by(id, x);
                    assert(c.is_triggered_by(id, x));
                }
                if exists|id: CallbackId| #[trigger] c.is_triggered_by(id, x) {
                    let id = choose|id: CallbackId| #[trigger] c.is_triggered_by(id, x);
                    assert(id.0 < n);
                    assert(read_by_first(c, n as int, x));
                }
                if written_by_first(c, n as int, x) {
                    let id = choose|id: CallbackId| id.0 < n && #[trigger] c.produces(id, x);
                    assert(c.produces(id, x));
                }
                if exists|id: CallbackId| #[trigger] c.produces(id, x) {
                    let id = choose|id: CallbackId| #[trigger] c.produces(id, x);
                    assert(id.0 < n);
                    assert(written_by_first(c, n as int, x));
                }
            }
        }
        required_inputs
    }
}

} // verus!
