//! One batch of updates, from the changed values to what is written back:
//! the local phase before the remote round trip, the round trip, and the
//! local phase after it. The caller makes the remote call; everything that
//! is decided around it is decided here.

use vstd::prelude::*;
use std::collections::HashMap;
use std::collections::HashSet;
use std::hash::Hash;
use crate::callback::{CallbackId, ValueToIdentifier};
use crate::context;
use crate::context::Context;
use crate::execution;
use crate::execution::ExecutionArg;
use crate::executor;
use crate::executor::Executor;
use crate::plan;
use crate::plan::ExecutionPlan;
use crate::registry::CallbacksContainer;

verus! {

/// A batch under way: its plan, and the values changed so far.
pub struct UpdateBatch<I, V> {
    pub plan: ExecutionPlan,
    pub updated_state: HashMap<I, ExecutionArg<V>>,
}

/// What the remote executor is asked to run.
pub struct RemoteCall<V> {
    pub execution_args: Vec<ExecutionArg<V>>,
    pub server_plan: Vec<CallbackId>,
}

/// Where a batch stands after a step.
pub enum BatchStep<I, V> {
    /// The remote phase is due: `call` goes to the remote executor, and its
    /// answer to [`resume_updates`].
    AwaitRemote { batch: UpdateBatch<I, V>, call: RemoteCall<V> },
    /// Every phase has run: the values of the batch are ready to be written
    /// back.
    Complete { batch: UpdateBatch<I, V> },
    /// The remote phase failed: nothing of the batch is written back.
    Abandoned,
}

/// The identifiers of `values`.
pub open spec fn identifier_set<I, V: ValueToIdentifier<I>>(values: Seq<V>) -> Set<I> {
    Set::new(|x: I| exists|i: int| 0 <= i < values.len() && (#[trigger] values[i]).identifier() == x)
}

/// Callback `id` has its body, and the body accepts every state that holds
/// a value for each identifier that the callback reads.
pub open spec fn body_is_ready<I, V, F>(c: &CallbacksContainer<I, F>, id: CallbackId) -> bool where
    F: Fn(&HashMap<I, V>) -> Vec<V>,
 {
    &&& c.callback(id).cb is Some
    &&& forall|state: HashMap<I, V>|
        (forall|x: I| #[trigger] c.is_triggered_by(id, x) ==> state@.contains_key(x))
            ==> #[trigger] call_requires(c.callback(id).cb->0, (&state,))
}

/// Every callback of `phase` has a body that is ready to run.
pub open spec fn phase_is_ready<I, V, F>(
    c: &CallbacksContainer<I, F>,
    phase: Seq<CallbackId>,
) -> bool where F: Fn(&HashMap<I, V>) -> Vec<V> {
    forall|k: int| 0 <= k < phase.len() ==> body_is_ready::<I, V, F>(c, #[trigger] phase[k])
}

/// Every local callback that an update of `updated` reaches has a body that
/// is ready to run.
pub open spec fn local_bodies_ready<I, V, F>(c: &CallbacksContainer<I, F>, updated: Set<I>) -> bool where
    F: Fn(&HashMap<I, V>) -> Vec<V>,
 {
    forall|id: CallbackId|
        c.contains(id) && !c.callback(id).is_remote() && #[trigger] plan::must_run(c, updated, id)
            ==> body_is_ready::<I, V, F>(c, id)
}

/// Every callback of `phase` is registered and local.
pub open spec fn is_local_phase<I, F>(c: &CallbacksContainer<I, F>, phase: Seq<CallbackId>) -> bool {
    forall|k: int|
        0 <= k < phase.len() ==> c.contains(#[trigger] phase[k]) && !c.callback(phase[k]).is_remote()
}

/// `keys` holds, each once, the identifiers that the callbacks of `phase` read.
pub open spec fn are_inputs_of<I, F>(
    c: &CallbacksContainer<I, F>,
    phase: Seq<CallbackId>,
    keys: Seq<I>,
) -> bool {
    &&& keys.no_duplicates()
    &&& forall|x: I| #[trigger]
        keys.contains(x) <==> executor::reads_within(c, phase, phase.len() as int, x)
}

/// The callbacks of `phase` ran on arguments `args` and produced `outputs`.
pub open spec fn phase_produced<I, V, F>(
    c: &CallbacksContainer<I, F>,
    args: Seq<ExecutionArg<V>>,
    phase: Seq<CallbackId>,
    outputs: Seq<ExecutionArg<V>>,
) -> bool where V: Clone + ValueToIdentifier<I>, F: Fn(&HashMap<I, V>) -> Vec<V> {
    exists|states: Seq<HashMap<I, V>>, results: Seq<Vec<V>>| #[trigger]
        execution::is_run(c, args, phase, states, results) && execution::tagged(
            outputs,
            execution::joined(results),
        )
}

/// `after` is the batch `before` once `phase` has run locally: nothing has
/// changed where the phase is empty; else its callbacks ran on the
/// arguments for the identifiers they read, and the batch took in what they
/// produced.
pub open spec fn phase_ran<I, V, F>(
    c: &CallbacksContainer<I, F>,
    before: Map<I, ExecutionArg<V>>,
    phase: Seq<CallbackId>,
    after: Map<I, ExecutionArg<V>>,
) -> bool where V: Clone + ValueToIdentifier<I>, F: Fn(&HashMap<I, V>) -> Vec<V> {
    if phase.len() == 0 {
        after == before
    } else {
        exists|keys: Seq<I>, args: Seq<ExecutionArg<V>>, outputs: Seq<ExecutionArg<V>>|
            {
                &&& #[trigger] context::are_arguments_for(before, keys, args)
                &&& are_inputs_of(c, phase, keys)
                &&& #[trigger] phase_produced(c, args, phase, outputs)
                &&& context::takes_in(before, outputs, after)
            }
    }
}

/// `call` asks the remote executor to run `phase` on the arguments for the
/// identifiers that its callbacks read.
pub open spec fn is_remote_call<I, V, F>(
    c: &CallbacksContainer<I, F>,
    state: Map<I, ExecutionArg<V>>,
    phase: Seq<CallbackId>,
    call: RemoteCall<V>,
) -> bool where V: Clone + ValueToIdentifier<I> {
    &&& call.server_plan@ == phase
    &&& exists|keys: Seq<I>| #[trigger]
        context::are_arguments_for(state, keys, call.execution_args@) && are_inputs_of(
            c,
            phase,
            keys,
        )
}

/// A batch that holds each value under the value's identifier still does
/// so after it has taken values in, where a copy of a value is the value.
pub proof fn lemma_takes_in_keeps_keyed<I, V: Clone + ValueToIdentifier<I>>(
    before: Map<I, ExecutionArg<V>>,
    args: Seq<ExecutionArg<V>>,
    after: Map<I, ExecutionArg<V>>,
)
    requires
        execution::clones_are_copies::<V>(),
        context::is_keyed(before),
        context::takes_in(before, args, after),
    ensures
        context::is_keyed(after),
{
    assert forall|x: I| after.contains_key(x) implies (#[trigger] after[x]).value.identifier()
        == x by {
        let values = execution::arg_values(args);
        let p = execution::last_position(values, x);
        execution::lemma_last_position_bounds(values, x);
        if p >= 0 {
            assert(values[p] == args[p].value);
            assert(cloned(args[p].value, after[x].value));
        } else {
            assert(before.contains_key(x));
            assert(before[x].value.identifier() == x);
        }
    }
}

/// The identifiers of the values of `values`.
pub fn identifiers_in<I: Hash + Eq + Copy, V: ValueToIdentifier<I>>(values: &Vec<V>) -> (set: HashSet<
    I,
>)
    requires
        vstd::std_specs::hash::obeys_key_model::<I>(),
    ensures
        set@ == identifier_set(values@),
{
    let mut set: HashSet<I> = HashSet::new();
    let n = values.len();
    let mut j: usize = 0;
    while j < n
        invariant
            vstd::std_specs::hash::obeys_key_model::<I>(),
            n == values@.len(),
            0 <= j <= n,
            forall|x: I| #[trigger]
                set@.contains(x) <==> exists|i: int|
                    0 <= i < j && (#[trigger] values@[i]).identifier() == x,
        decreases n - j,
    {
        let identifier = values[j].to_identifier();
        let ghost before = set@;
        set.insert(identifier);
        proof {
            assert forall|x: I| #[trigger]
                set@.contains(x) <==> exists|i: int|
                    0 <= i < j + 1 && (#[trigger] values@[i]).identifier() == x by {
                if before.contains(x) {
                    let i = choose|i: int| 0 <= i < j && (#[trigger] values@[i]).identifier() == x;
                    assert(values@[i].identifier() == x);
                }
                if x == identifier {
                    assert(values@[j as int].identifier() == x);
                }
                if exists|i: int| 0 <= i < j + 1 && (#[trigger] values@[i]).identifier() == x {
                    let i = choose|i: int|
                        0 <= i < j + 1 && (#[trigger] values@[i]).identifier() == x;
                    if i < j {
                        assert(before.contains(x));
                    }
                }
            }
        }
        j += 1;
    }
    proof {
        assert(set@ =~= identifier_set(values@));
    }
    set
}

/// Runs the callbacks of `phase` here, on the arguments for the identifiers
/// they read, and takes what they produce into the batch. Does nothing
/// where `phase` is empty.
pub fn run_local_phase<C: Context, F>(
    context: &C,
    executor: &Executor<C::I, F>,
    updated_state: &mut HashMap<C::I, ExecutionArg<C::V>>,
    phase: &Vec<CallbackId>,
) where F: Fn(&HashMap<C::I, C::V>) -> Vec<C::V>
    requires
        executor.wf(),
        execution::clones_are_copies::<C::V>(),
        is_local_phase(&executor.callbacks_container, phase@),
        phase_is_ready::<C::I, C::V, F>(&executor.callbacks_container, phase@),
        context::is_keyed(old(updated_state)@),
    ensures
        context::is_keyed(final(updated_state)@),
        phase_ran(&executor.callbacks_container, old(updated_state)@, phase@, final(updated_state)@),
{
    let c = &executor.callbacks_container;
    proof {
        c.lemma_wf_identifiers();
    }
    if phase.len() == 0 {
        return ;
    }
    let ghost before = updated_state@;
    let args = context::get_execution_args(context, executor, updated_state, phase);
    let ghost keys = choose|keys: Seq<C::I>|
        {
            &&& #[trigger] context::are_arguments_for(before, keys, args@)
            &&& forall|x: C::I|
                keys.contains(x) <==> executor::reads_within(c, phase@, phase@.len() as int, x)
        };
    proof {
        assert forall|k: int, state: HashMap<C::I, C::V>|
            0 <= k < phase@.len() && execution::holds_arguments(
                state@,
                args@,
            ) implies #[trigger] call_requires(c.callback(phase@[k]).cb->0, (&state,)) by {
            let id = phase@[k];
            assert(c.contains(id) && !c.callback(id).is_remote());
            assert(body_is_ready::<C::I, C::V, F>(c, id));
            assert forall|x: C::I| #[trigger] c.is_triggered_by(id, x) implies state@.contains_key(
                x,
            ) by {
                assert(executor::reads_within(c, phase@, phase@.len() as int, x));
                assert(keys.contains(x));
                let i = choose|i: int| 0 <= i < keys.len() && keys[i] == x;
                assert(context::is_argument_for(before, keys[i], args@[i]));
                assert(state@.contains_key(args@[i].value.identifier()));
            }
        }
        assert forall|k: int| 0 <= k < phase@.len() implies c.contains(#[trigger] phase@[k])
            && c.callback(phase@[k]).cb is Some by {
            assert(body_is_ready::<C::I, C::V, F>(c, phase@[k]));
        }
    }
    let outputs = executor.execute_plan(&args, phase);
    context::take_in(updated_state, &outputs);
    proof {
        lemma_takes_in_keeps_keyed(before, outputs@, updated_state@);
        assert(phase_produced(c, args@, phase@, outputs@));
        assert(are_inputs_of(c, phase@, keys));
        assert(context::are_arguments_for(before, keys, args@));
    }
}

/// The batch has run the local phase that comes before the remote one,
/// and `call` is the call for the remote phase.
pub open spec fn awaits_remote<C: Context, F>(
    executor: &Executor<C::I, F>,
    input_updates: Seq<C::V>,
    batch: UpdateBatch<C::I, C::V>,
    call: RemoteCall<C::V>,
) -> bool where F: Fn(&HashMap<C::I, C::V>) -> Vec<C::V> {
    &&& executor.is_plan_for(identifier_set(input_updates), batch.plan)
    &&& batch.plan.server_plan@.len() > 0
    &&& context::is_keyed(batch.updated_state@)
    &&& exists|start: Map<C::I, ExecutionArg<C::V>>|
        {
            &&& #[trigger] context::takes_in(
                Map::<C::I, ExecutionArg<C::V>>::empty(),
                context::as_updates(input_updates),
                start,
            )
            &&& phase_ran(
                &executor.callbacks_container,
                start,
                batch.plan.client_pre_plan@,
                batch.updated_state@,
            )
        }
    &&& is_remote_call(
        &executor.callbacks_container,
        batch.updated_state@,
        batch.plan.server_plan@,
        call,
    )
}

/// The plan has no remote phase, and the batch has run both local phases.
pub open spec fn ran_locally<C: Context, F>(
    executor: &Executor<C::I, F>,
    input_updates: Seq<C::V>,
    batch: UpdateBatch<C::I, C::V>,
) -> bool where F: Fn(&HashMap<C::I, C::V>) -> Vec<C::V> {
    &&& executor.is_plan_for(identifier_set(input_updates), batch.plan)
    &&& batch.plan.server_plan@.len() == 0
    &&& context::is_keyed(batch.updated_state@)
    &&& exists|start: Map<C::I, ExecutionArg<C::V>>, middle: Map<C::I, ExecutionArg<C::V>>|
        {
            &&& #[trigger] context::takes_in(
                Map::<C::I, ExecutionArg<C::V>>::empty(),
                context::as_updates(input_updates),
                start,
            )
            &&& #[trigger] phase_ran(
                &executor.callbacks_container,
                start,
                batch.plan.client_pre_plan@,
                middle,
            )
            &&& phase_ran(
                &executor.callbacks_container,
                middle,
                batch.plan.client_post_plan@,
                batch.updated_state@,
            )
        }
}

/// Starts a batch for the changed values `input_updates`: plans it and runs
/// the local phase that comes before the remote one. Where the plan has a
/// remote phase, hands back the call for it; else runs the local phase that
/// comes after it, and the batch is complete.
pub fn begin_updates<C: Context, F>(
    context: &C,
    executor: &Executor<C::I, F>,
    input_updates: &Vec<C::V>,
) -> (step: BatchStep<C::I, C::V>) where F: Fn(&HashMap<C::I, C::V>) -> Vec<C::V>
    requires
        executor.wf(),
        execution::clones_are_copies::<C::V>(),
        local_bodies_ready::<C::I, C::V, F>(
            &executor.callbacks_container,
            identifier_set(input_updates@),
        ),
    ensures
        match step {
            BatchStep::AwaitRemote { batch, call } => awaits_remote::<C, F>(
                executor,
                input_updates@,
                batch,
                call,
            ),
            BatchStep::Complete { batch } => ran_locally::<C, F>(executor, input_updates@, batch),
            BatchStep::Abandoned => false,
        },
{
    let c = &executor.callbacks_container;
    proof {
        c.lemma_wf_identifiers();
    }
    let updated_inputs = identifiers_in(input_updates);
    let execution_plan = executor.get_execution_plan(&updated_inputs);
    let mut updated_state = context::initial_state(input_updates);
    let ghost empty = Map::<C::I, ExecutionArg<C::V>>::empty();
    let ghost start = updated_state@;
    proof {
        assert(context::is_keyed(empty));
        lemma_takes_in_keeps_keyed(empty, context::as_updates(input_updates@), start);
        let pre = execution_plan.client_pre_plan@;
        let post = execution_plan.client_post_plan@;
        if c.is_frozen() {
            lemma_plan_phases_are_local(c, identifier_set(input_updates@), execution_plan);
            assert forall|k: int| 0 <= k < pre.len() implies body_is_ready::<C::I, C::V, F>(
                c,
                #[trigger] pre[k],
            ) by {
                assert(pre.contains(pre[k]));
            }
            assert forall|k: int| 0 <= k < post.len() implies body_is_ready::<C::I, C::V, F>(
                c,
                #[trigger] post[k],
            ) by {
                assert(post.contains(post[k]));
            }
        }
    }
    run_local_phase(context, executor, &mut updated_state, &execution_plan.client_pre_plan);
    let ghost middle = updated_state@;
    if execution_plan.server_plan.len() > 0 {
        let execution_args = context::get_execution_args(
            context,
            executor,
            &updated_state,
            &execution_plan.server_plan,
        );
        let server_plan = copy_of(&execution_plan.server_plan);
        let call = RemoteCall { execution_args, server_plan };
        let batch = UpdateBatch { plan: execution_plan, updated_state };
        proof {
            let keys = choose|keys: Seq<C::I>|
                {
                    &&& #[trigger] context::are_arguments_for(middle, keys, call.execution_args@)
                    &&& forall|x: C::I|
                        keys.contains(x) <==> executor::reads_within(
                            c,
                            batch.plan.server_plan@,
                            batch.plan.server_plan@.len() as int,
                            x,
                        )
                };
            assert(are_inputs_of(c, batch.plan.server_plan@, keys));
            assert(call.server_plan@ =~= batch.plan.server_plan@);
            assert(is_remote_call(c, middle, batch.plan.server_plan@, call));
            assert(context::takes_in(empty, context::as_updates(input_updates@), start));
            assert(phase_ran(c, start, batch.plan.client_pre_plan@, middle));
            assert(awaits_remote::<C, F>(executor, input_updates@, batch, call));
        }
        BatchStep::AwaitRemote { batch, call }
    } else {
        run_local_phase(context, executor, &mut updated_state, &execution_plan.client_post_plan);
        let batch = UpdateBatch { plan: execution_plan, updated_state };
        proof {
            assert(context::takes_in(empty, context::as_updates(input_updates@), start));
            assert(phase_ran(c, start, batch.plan.client_pre_plan@, middle));
            assert(phase_ran(c, middle, batch.plan.client_post_plan@, batch.updated_state@));
            assert(ran_locally::<C, F>(executor, input_updates@, batch));
        }
        BatchStep::Complete { batch }
    }
}

/// Goes on with a batch after the remote call. `response` is what the
/// remote executor produced, or `None` where the call failed: the batch is
/// then abandoned. Else the batch takes the response in and runs the local
/// phase that comes after the remote one, and is complete.
pub fn resume_updates<C: Context, F>(
    context: &C,
    executor: &Executor<C::I, F>,
    batch: UpdateBatch<C::I, C::V>,
    response: Option<Vec<ExecutionArg<C::V>>>,
) -> (step: BatchStep<C::I, C::V>) where F: Fn(&HashMap<C::I, C::V>) -> Vec<C::V>
    requires
        executor.wf(),
        execution::clones_are_copies::<C::V>(),
        is_local_phase(&executor.callbacks_container, batch.plan.client_post_plan@),
        phase_is_ready::<C::I, C::V, F>(
            &executor.callbacks_container,
            batch.plan.client_post_plan@,
        ),
        context::is_keyed(batch.updated_state@),
    ensures
        match step {
            BatchStep::AwaitRemote { .. } => false,
            BatchStep::Complete { batch: done } => {
                &&& response is Some
                &&& done.plan == batch.plan
                &&& context::is_keyed(done.updated_state@)
                &&& exists|merged: Map<C::I, ExecutionArg<C::V>>|
                    {
                        &&& #[trigger] context::takes_in(
                            batch.updated_state@,
                            response->0@,
                            merged,
                        )
                        &&& phase_ran(
                            &executor.callbacks_container,
                            merged,
                            batch.plan.client_post_plan@,
                            done.updated_state@,
                        )
                    }
            },
            BatchStep::Abandoned => response is None,
        },
{
    proof {
        executor.callbacks_container.lemma_wf_identifiers();
    }
    match response {
        None => BatchStep::Abandoned,
        Some(server_output) => {
            let UpdateBatch { plan: execution_plan, updated_state: mut updated_state } = batch;
            let ghost before = updated_state@;
            context::take_in(&mut updated_state, &server_output);
            proof {
                lemma_takes_in_keeps_keyed(before, server_output@, updated_state@);
            }
            run_local_phase(context, executor, &mut updated_state, &execution_plan.client_post_plan);
            BatchStep::Complete { batch: UpdateBatch { plan: execution_plan, updated_state } }
        },
    }
}

/// The phases of a plan hold registered callbacks only, and the local phases
/// local ones.
pub proof fn lemma_plan_phases_are_local<I, F>(
    c: &CallbacksContainer<I, F>,
    updated: Set<I>,
    execution_plan: ExecutionPlan,
)
    requires
        plan::is_execution_plan(c, updated, execution_plan),
    ensures
        is_local_phase(c, execution_plan.client_pre_plan@),
        is_local_phase(c, execution_plan.client_post_plan@),
        forall|k: int|
            0 <= k < execution_plan.server_plan@.len() ==> c.contains(
                #[trigger] execution_plan.server_plan@[k],
            ),
{
    let pre = execution_plan.client_pre_plan@;
    let post = execution_plan.client_post_plan@;
    let server = execution_plan.server_plan@;
    assert forall|k: int| 0 <= k < server.len() implies c.contains(#[trigger] server[k]) by {
        assert(server.contains(server[k]));
    }
    assert forall|k: int| 0 <= k < pre.len() implies c.contains(#[trigger] pre[k]) && !c.callback(
        pre[k],
    ).is_remote() by {
        assert(pre.contains(pre[k]));
    }
    assert forall|k: int| 0 <= k < post.len() implies c.contains(#[trigger] post[k])
        && !c.callback(post[k]).is_remote() by {
        assert(post.contains(post[k]));
    }
}

/// A copy of `ids`.
pub fn copy_of(ids: &Vec<CallbackId>) -> (copy: Vec<CallbackId>)
    ensures
        copy@ == ids@,
{
    let mut copy: Vec<CallbackId> = Vec::new();
    let n = ids.len();
    let mut i: usize = 0;
    while i < n
        invariant
            n == ids@.len(),
            0 <= i <= n,
            copy@ == ids@.take(i as int),
        decreases n - i,
    {
        copy.push(ids[i]);
        assert(ids@.take(i + 1) =~= ids@.take(i as int).push(ids@[i as int]));
        i += 1;
    }
    assert(ids@.take(n as int) =~= ids@);
    copy
}

} // verus!
