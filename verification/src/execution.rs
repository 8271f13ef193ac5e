//! Running a plan: the values that go in, the state that the callbacks see,
//! and the values that come out.

use vstd::prelude::*;
use std::collections::HashMap;
use std::hash::Hash;
use vstd::std_specs::iter::IteratorSpec;
use crate::callback::{CallbackId, ValueToIdentifier};
use crate::executor::Executor;
use crate::registry::CallbacksContainer;

verus! {

/// Why a value is handed to a plan.
#[derive(Clone, Copy, Debug, PartialEq, Eq, Structural)]
pub enum ArgState {
    /// Read from the current state because a callback needs it.
    Unmodified,
    /// Changed in this batch.
    Updated,
}

/// A value handed to a plan, or produced by it.
#[derive(Clone, Debug)]
pub struct ExecutionArg<V> {
    pub value: V,
    pub state: ArgState,
}

/// The values of `args`, in the same order.
pub open spec fn arg_values<V>(args: Seq<ExecutionArg<V>>) -> Seq<V> {
    Seq::new(args.len(), |i: int| args[i].value)
}

/// The position of the last value of `values` that belongs to identifier
/// `x`, or `-1` where none does.
pub open spec fn last_position<I, V: ValueToIdentifier<I>>(values: Seq<V>, x: I) -> int
    decreases values.len(),
{
    if values.len() == 0 {
        -1
    } else if values.last().identifier() == x {
        values.len() - 1
    } else {
        last_position(values.drop_last(), x)
    }
}

/// `after` is `before` with a copy of each value of `values` stored under
/// the value's identifier, a later value in place of an earlier one.
pub open spec fn absorbs<I, V: Clone + ValueToIdentifier<I>>(
    before: Map<I, V>,
    values: Seq<V>,
    after: Map<I, V>,
) -> bool {
    forall|x: I|
        if #[trigger] last_position(values, x) >= 0 {
            after.contains_key(x) && cloned(values[last_position(values, x)], after[x])
        } else {
            after.contains_key(x) == before.contains_key(x) && (before.contains_key(x) ==> after[x]
                == before[x])
        }
}

/// The state holds a value under the identifier of every argument.
pub open spec fn holds_arguments<I, V: ValueToIdentifier<I>>(
    state: Map<I, V>,
    args: Seq<ExecutionArg<V>>,
) -> bool {
    forall|i: int| 0 <= i < args.len() ==> state.contains_key((#[trigger] args[i]).value.identifier())
}

/// The lists of `results`, one after the other.
pub open spec fn joined<V>(results: Seq<Vec<V>>) -> Seq<V>
    decreases results.len(),
{
    if results.len() == 0 {
        Seq::empty()
    } else {
        joined(results.drop_last()) + results.last()@
    }
}

/// `outputs` holds the values `values`, in the same order, each marked as
/// updated.
pub open spec fn tagged<V>(outputs: Seq<ExecutionArg<V>>, values: Seq<V>) -> bool {
    &&& outputs.len() == values.len()
    &&& forall|j: int|
        0 <= j < outputs.len() ==> (#[trigger] outputs[j]).value == values[j] && outputs[j].state
            == ArgState::Updated
}

/// `states` and `results` record a run of `plan` on `args`: the first state
/// holds the arguments; the body of each callback, shown the state before
/// it, returned its entry of `results`; and the state after it has taken
/// those values in.
pub open spec fn is_run<I, V, F>(
    c: &CallbacksContainer<I, F>,
    args: Seq<ExecutionArg<V>>,
    plan: Seq<CallbackId>,
    states: Seq<HashMap<I, V>>,
    results: Seq<Vec<V>>,
) -> bool where V: Clone + ValueToIdentifier<I>, F: Fn(&HashMap<I, V>) -> Vec<V> {
    &&& states.len() == plan.len() + 1
    &&& results.len() == plan.len()
    &&& absorbs(Map::<I, V>::empty(), arg_values(args), states[0]@)
    &&& forall|k: int|
        0 <= k < plan.len() ==> {
            &&& c.callback(plan[k]).cb is Some
            &&& call_ensures(c.callback(plan[k]).cb->0, (&states[k],), #[trigger] results[k])
            &&& absorbs(states[k]@, results[k]@, states[k + 1]@)
        }
}

/// The body of every callback of `plan` returns the same values whenever it
/// is shown the same state.
pub open spec fn bodies_are_pure<I, V, F>(
    c: &CallbacksContainer<I, F>,
    plan: Seq<CallbackId>,
) -> bool where F: Fn(&HashMap<I, V>) -> Vec<V> {
    forall|k: int, s1: HashMap<I, V>, s2: HashMap<I, V>, r1: Vec<V>, r2: Vec<V>|
        0 <= k < plan.len() && s1@ == s2@ && #[trigger] call_ensures(
            c.callback(plan[k]).cb->0,
            (&s1,),
            r1,
        ) && #[trigger] call_ensures(c.callback(plan[k]).cb->0, (&s2,), r2) ==> r1@ == r2@
}

/// A copy of a value is the value.
pub open spec fn clones_are_copies<V: Clone>() -> bool {
    forall|a: V, b: V| #[trigger] cloned(a, b) ==> a == b
}

/// A value that belongs to `x` has a last position at or behind it.
pub proof fn lemma_last_position_bounds<I, V: ValueToIdentifier<I>>(values: Seq<V>, x: I)
    ensures
        -1 <= last_position(values, x) < values.len(),
        last_position(values, x) >= 0 ==> values[last_position(values, x)].identifier() == x,
        forall|i: int|
            0 <= i < values.len() && (#[trigger] values[i]).identifier() == x ==> i
                <= last_position(values, x),
    decreases values.len(),
{
    if values.len() > 0 {
        let rest = values.drop_last();
        lemma_last_position_bounds(rest, x);
        assert forall|i: int|
            0 <= i < values.len() && (#[trigger] values[i]).identifier() == x implies i
            <= last_position(values, x) by {
            if i < rest.len() {
                assert(rest[i] == values[i]);
            }
        }
    }
}

/// A state that took values in still holds a value under every identifier
/// that it held before, and under the identifier of every value.
pub proof fn lemma_absorbs_keeps_keys<I, V: Clone + ValueToIdentifier<I>>(
    before: Map<I, V>,
    values: Seq<V>,
    after: Map<I, V>,
)
    requires
        absorbs(before, values, after),
    ensures
        forall|x: I| before.contains_key(x) ==> after.contains_key(x),
        forall|i: int| 0 <= i < values.len() ==> after.contains_key((#[trigger] values[i]).identifier()),
{
    assert forall|x: I| before.contains_key(x) implies after.contains_key(x) by {
        lemma_last_position_bounds(values, x);
    }
    assert forall|i: int| 0 <= i < values.len() implies after.contains_key(
        (#[trigger] values[i]).identifier(),
    ) by {
        lemma_last_position_bounds(values, values[i].identifier());
    }
}

/// Where a copy of a value is the value, the state after taking values in
/// is determined by the state before and the values.
pub proof fn lemma_absorbs_is_a_function<I, V: Clone + ValueToIdentifier<I>>(
    before: Map<I, V>,
    values: Seq<V>,
    first: Map<I, V>,
    second: Map<I, V>,
)
    requires
        clones_are_copies::<V>(),
        absorbs(before, values, first),
        absorbs(before, values, second),
    ensures
        first == second,
{
    assert forall|x: I| #[trigger]
        first.dom().contains(x) == second.dom().contains(x) && (first.dom().contains(x)
            ==> first[x] == second[x]) by {
        let p = last_position(values, x);
        if p >= 0 {
            lemma_last_position_bounds(values, x);
            assert(cloned(values[p], first[x]));
            assert(cloned(values[p], second[x]));
        }
    }
    assert(first.dom() =~= second.dom());
    assert(first =~= second);
}

/// Lists with the same entries, one after the other, give the same list.
pub proof fn lemma_joined_by_views<V>(left: Seq<Vec<V>>, right: Seq<Vec<V>>)
    requires
        left.len() == right.len(),
        forall|k: int| 0 <= k < left.len() ==> (#[trigger] left[k])@ == right[k]@,
    ensures
        joined(left) == joined(right),
    decreases left.len(),
{
    if left.len() > 0 {
        let l = left.drop_last();
        let r = right.drop_last();
        assert forall|k: int| 0 <= k < l.len() implies (#[trigger] l[k])@ == r[k]@ by {
            assert(l[k] == left[k]);
            assert(r[k] == right[k]);
        }
        lemma_joined_by_views(l, r);
        assert(left.last() == left[left.len() - 1]);
        assert(right.last() == right[right.len() - 1]);
    }
}

/// Two runs of one plan on the same arguments agree on the state before
/// callback `k` and on what the callbacks before it returned.
proof fn lemma_runs_agree_upto<I, V, F>(
    c: &CallbacksContainer<I, F>,
    args: Seq<ExecutionArg<V>>,
    plan: Seq<CallbackId>,
    states1: Seq<HashMap<I, V>>,
    results1: Seq<Vec<V>>,
    states2: Seq<HashMap<I, V>>,
    results2: Seq<Vec<V>>,
    k: int,
) where V: Clone + ValueToIdentifier<I>, F: Fn(&HashMap<I, V>) -> Vec<V>
    requires
        is_run(c, args, plan, states1, results1),
        is_run(c, args, plan, states2, results2),
        clones_are_copies::<V>(),
        bodies_are_pure::<I, V, F>(c, plan),
        0 <= k <= plan.len(),
    ensures
        states1[k]@ == states2[k]@,
        forall|j: int| 0 <= j < k ==> (#[trigger] results1[j])@ == results2[j]@,
    decreases k,
{
    if k == 0 {
        lemma_absorbs_is_a_function(
            Map::<I, V>::empty(),
            arg_values(args),
            states1[0]@,
            states2[0]@,
        );
    } else {
        lemma_runs_agree_upto(c, args, plan, states1, results1, states2, results2, k - 1);
        let j = k - 1;
        assert(call_ensures(c.callback(plan[j]).cb->0, (&states1[j],), results1[j]));
        assert(call_ensures(c.callback(plan[j]).cb->0, (&states2[j],), results2[j]));
        assert(results1[j]@ == results2[j]@);
        assert(absorbs(states1[j]@, results1[j]@, states1[j + 1]@));
        assert(absorbs(states2[j]@, results2[j]@, states2[j + 1]@));
        lemma_absorbs_is_a_function(states1[j]@, results1[j]@, states1[k]@, states2[k]@);
    }
}

/// Two runs of one plan on the same arguments produce the same values, in
/// the same order, where the callbacks' bodies are pure and a copy of a
/// value is the value.
pub proof fn lemma_pure_runs_agree<I, V, F>(
    c: &CallbacksContainer<I, F>,
    args: Seq<ExecutionArg<V>>,
    plan: Seq<CallbackId>,
    states1: Seq<HashMap<I, V>>,
    results1: Seq<Vec<V>>,
    outputs1: Seq<ExecutionArg<V>>,
    states2: Seq<HashMap<I, V>>,
    results2: Seq<Vec<V>>,
    outputs2: Seq<ExecutionArg<V>>,
) where V: Clone + ValueToIdentifier<I>, F: Fn(&HashMap<I, V>) -> Vec<V>
    requires
        is_run(c, args, plan, states1, results1),
        tagged(outputs1, joined(results1)),
        is_run(c, args, plan, states2, results2),
        tagged(outputs2, joined(results2)),
        clones_are_copies::<V>(),
        bodies_are_pure::<I, V, F>(c, plan),
    ensures
        outputs1 == outputs2,
{
    lemma_runs_agree_upto(c, args, plan, states1, results1, states2, results2, plan.len() as int);
    lemma_joined_by_views(results1, results2);
    assert(outputs1 =~= outputs2);
}

/// Stores a copy of each value of `values` in `state`, under the value's
/// identifier.
fn store_all<I: Hash + Eq + Copy, V: Clone + ValueToIdentifier<I>>(
    state: &mut HashMap<I, V>,
    values: &Vec<V>,
)
    requires
        vstd::std_specs::hash::obeys_key_model::<I>(),
    ensures
        absorbs(old(state)@, values@, final(state)@),
{
    let n = values.len();
    let mut j: usize = 0;
    assert(values@.take(0) =~= Seq::<V>::empty());
    while j < n
        invariant
            vstd::std_specs::hash::obeys_key_model::<I>(),
            n == values@.len(),
            0 <= j <= n,
            absorbs(old(state)@, values@.take(j as int), state@),
        decreases n - j,
    {
        let identifier = values[j].to_identifier();
        let copy = values[j].clone();
        state.insert(identifier, copy);
        proof {
            let shorter = values@.take(j as int);
            let longer = values@.take(j + 1);
            assert(longer.drop_last() =~= shorter);
            assert(longer.last() == values@[j as int]);
            assert forall|x: I|
                if #[trigger] last_position(longer, x) >= 0 {
                    state@.contains_key(x) && cloned(longer[last_position(longer, x)], state@[x])
                } else {
                    state@.contains_key(x) == old(state)@.contains_key(x) && (old(
                        state,
                    )@.contains_key(x) ==> state@[x] == old(state)@[x])
                } by {
                if x != identifier {
                    let p = last_position(shorter, x);
                    lemma_last_position_bounds(shorter, x);
                    if p >= 0 {
                        assert(longer[p] == shorter[p]);
                    }
                }
            }
        }
        j += 1;
    }
    assert(values@.take(n as int) =~= values@);
}

/// Stores a copy of the value of each argument in `state`, under the
/// value's identifier.
fn store_args<I: Hash + Eq + Copy, V: Clone + ValueToIdentifier<I>>(
    state: &mut HashMap<I, V>,
    args: &Vec<ExecutionArg<V>>,
)
    requires
        vstd::std_specs::hash::obeys_key_model::<I>(),
    ensures
        absorbs(old(state)@, arg_values(args@), final(state)@),
{
    let n = args.len();
    let mut j: usize = 0;
    let ghost values = arg_values(args@);
    assert(values.take(0) =~= Seq::<V>::empty());
    while j < n
        invariant
            vstd::std_specs::hash::obeys_key_model::<I>(),
            n == args@.len(),
            values == arg_values(args@),
            0 <= j <= n,
            absorbs(old(state)@, values.take(j as int), state@),
        decreases n - j,
    {
        let identifier = args[j].value.to_identifier();
        let copy = args[j].value.clone();
        state.insert(identifier, copy);
        proof {
            let shorter = values.take(j as int);
            let longer = values.take(j + 1);
            assert(longer.drop_last() =~= shorter);
            assert(longer.last() == values[j as int]);
            assert(values[j as int] == args@[j as int].value);
            assert forall|x: I|
                if #[trigger] last_position(longer, x) >= 0 {
                    state@.contains_key(x) && cloned(longer[last_position(longer, x)], state@[x])
                } else {
                    state@.contains_key(x) == old(state)@.contains_key(x) && (old(
                        state,
                    )@.contains_key(x) ==> state@[x] == old(state)@[x])
                } by {
                if x != identifier {
                    let p = last_position(shorter, x);
                    lemma_last_position_bounds(shorter, x);
                    if p >= 0 {
                        assert(longer[p] == shorter[p]);
                    }
                }
            }
        }
        j += 1;
    }
    assert(values.take(n as int) =~= values);
}

/// Moves the values of `values` to the end of `outputs`, each marked as
/// updated.
fn collect_updated<V>(outputs: &mut Vec<ExecutionArg<V>>, values: Vec<V>, Ghost(sofar): Ghost<Seq<V>>)
    requires
        tagged(old(outputs)@, sofar),
    ensures
        tagged(final(outputs)@, sofar + values@),
{
    let ghost moved = values@;
    for value in it: values.into_iter()
        invariant
            it.seq() == moved,
            tagged(outputs@, sofar + moved.take(it.index() as int)),
    {
        let ghost prior = outputs@;
        let ghost count = it.index() as int;
        outputs.push(ExecutionArg { value, state: ArgState::Updated });
        proof {
            let target = sofar + moved.take(count + 1);
            assert(target.len() == prior.len() + 1);
            assert forall|j: int| 0 <= j < outputs@.len() implies (#[trigger] outputs@[j]).value
                == target[j] && outputs@[j].state == ArgState::Updated by {
                if j < prior.len() {
                    assert(outputs@[j] == prior[j]);
                    assert((sofar + moved.take(count))[j] == target[j]);
                } else {
                    assert(target[j] == moved[count]);
                }
            }
        }
    }
    assert(moved.take(moved.len() as int) =~= moved);
}

impl<I: Hash + Eq + Copy, F> Executor<I, F> {
    /// Runs the callbacks of `plan` in order. The first callback sees a state
    /// that holds the arguments; each later one sees, in addition, what the
    /// callbacks before it produced, a later value of an identifier in place
    /// of an earlier one. Returns everything that the callbacks produced, in
    /// the order in which they produced it, marked as updated.
    pub fn execute_plan<V>(
        &self,
        execution_args: &Vec<ExecutionArg<V>>,
        plan: &Vec<CallbackId>,
    ) -> (outputs: Vec<ExecutionArg<V>>) where
        V: Clone + ValueToIdentifier<I>,
        F: Fn(&HashMap<I, V>) -> Vec<V>,

        requires
            self.wf(),
            forall|k: int|
                0 <= k < plan@.len() ==> self.callbacks_container.contains(#[trigger] plan@[k])
                    && self.callbacks_container.callback(plan@[k]).cb is Some,
            forall|k: int, state: HashMap<I, V>|
                0 <= k < plan@.len() && holds_arguments(state@, execution_args@)
                    ==> #[trigger] call_requires(
                    self.callbacks_container.callback(plan@[k]).cb->0,
                    (&state,),
                ),
        ensures
            exists|states: Seq<HashMap<I, V>>, results: Seq<Vec<V>>| #[trigger]
                is_run(&self.callbacks_container, execution_args@, plan@, states, results)
                    && tagged(outputs@, joined(results)),
    {
        let c = &self.callbacks_container;
        proof {
            c.lemma_wf_identifiers();
        }
        let mut state: HashMap<I, V> = HashMap::new();
        store_args(&mut state, execution_args);
        let ghost mut states: Seq<HashMap<I, V>> = seq![state];
        let ghost mut results: Seq<Vec<V>> = Seq::empty();
        let mut outputs: Vec<ExecutionArg<V>> = Vec::new();
        proof {
            lemma_absorbs_keeps_keys(Map::<I, V>::empty(), arg_values(execution_args@), state@);
            assert forall|i: int| 0 <= i < execution_args@.len() implies state@.contains_key(
                (#[trigger] execution_args@[i]).value.identifier(),
            ) by {
                assert(arg_values(execution_args@)[i] == execution_args@[i].value);
            }
        }
        let n = plan.len();
        let mut k: usize = 0;
        while k < n
            invariant
                vstd::std_specs::hash::obeys_key_model::<I>(),
                c == &self.callbacks_container,
                n == plan@.len(),
                0 <= k <= n,
                forall|j: int|
                    0 <= j < plan@.len() ==> c.contains(#[trigger] plan@[j]) && c.callback(
                        plan@[j],
                    ).cb is Some,
                forall|j: int, s: HashMap<I, V>|
                    0 <= j < plan@.len() && holds_arguments(s@, execution_args@)
                        ==> #[trigger] call_requires(c.callback(plan@[j]).cb->0, (&s,)),
                states.len() == k + 1,
                results.len() == k,
                states[k as int] == state,
                holds_arguments(state@, execution_args@),
                absorbs(Map::<I, V>::empty(), arg_values(execution_args@), states[0]@),
                forall|j: int|
                    0 <= j < k ==> {
                        &&& call_ensures(
                            c.callback(plan@[j]).cb->0,
                            (&states[j],),
                            #[trigger] results[j],
                        )
                        &&& absorbs(states[j]@, results[j]@, states[j + 1]@)
                    },
                tagged(outputs@, joined(results)),
            decreases n - k,
        {
            let callback = c.get_callback(&plan[k]);
            let new_updates = match &callback.cb {
                Some(body) => body(&state),
                None => vstd::pervasive::unreached(),
            };
            let ghost state_before = state;
            let ghost results_before = results;
            let ghost states_before = states;
            store_all(&mut state, &new_updates);
            proof {
                results = results.push(new_updates);
                states = states.push(state);
                lemma_absorbs_keeps_keys(state_before@, new_updates@, state@);
                assert(results.drop_last() =~= results_before);
                assert(joined(results) == joined(results_before) + new_updates@);
                assert forall|j: int| 0 <= j < k + 1 implies {
                    &&& call_ensures(
                        c.callback(plan@[j]).cb->0,
                        (&states[j],),
                        #[trigger] results[j],
                    )
                    &&& absorbs(states[j]@, results[j]@, states[j + 1]@)
                } by {
                    if j < k {
                        assert(results[j] == results_before[j]);
                        assert(states[j] == states_before[j]);
                        assert(states[j + 1] == states_before[j + 1]);
                    }
                }
            }
            collect_updated(&mut outputs, new_updates, Ghost(joined(results_before)));
            k += 1;
        }
        proof {
            assert(is_run(c, execution_args@, plan@, states, results));
        }
        outputs
    }
}

} // verus!
