//! The state owner's side of an update: which values a phase of a plan is
//! handed, how what it produced is taken in, and what is written back.

use vstd::prelude::*;
use std::collections::HashMap;
use std::collections::HashSet;
use std::hash::Hash;
use vstd::std_specs::iter::IteratorSpec;
use crate::callback::{CallbackId, ValueToIdentifier};
use crate::execution;
use crate::execution::{ArgState, ExecutionArg};
use crate::executor;
use crate::executor::Executor;
use crate::planner;

verus! {

/// Bookkeeping of a state owner: whether the state has been initialised,
/// and a version counter per identifier.
pub struct ContextManager<I> {
    pub initialized: bool,
    pub value_versions: HashMap<I, u32>,
}

impl<I> ContextManager<I> {
    /// The bookkeeping of a state that has not been initialised.
    pub fn new() -> (manager: ContextManager<I>)
        ensures
            !manager.initialized,
            manager.value_versions@ == Map::<I, u32>::empty(),
    {
        ContextManager { initialized: false, value_versions: HashMap::new() }
    }
}

/// The owner of the application state: the store that values are read from
/// and written back to.
pub trait Context {
    /// The identifiers of the state's fields.
    type I: Hash + Eq + Copy;

    /// The values of the state's fields.
    type V: Clone + ValueToIdentifier<Self::I>;

    /// Stores `value` as the current value of its field.
    fn update_value(&self, value: Self::V);

    /// The current value of the field `identifier`.
    fn read_value(&self, identifier: &Self::I) -> (value: Self::V)
        ensures
            value.identifier() == *identifier,
    ;

    /// The owner's bookkeeping.
    fn get_manager(&self) -> &ContextManager<Self::I>;
}

/// The values that a batch has changed so far, each under its identifier,
/// with the values that were read along the way.
pub open spec fn is_keyed<I, V: ValueToIdentifier<I>>(state: Map<I, ExecutionArg<V>>) -> bool {
    forall|x: I| state.contains_key(x) ==> (#[trigger] state[x]).value.identifier() == x
}

/// `after` is `before` with a copy of each entry of `args` stored under the
/// identifier of its value, a later entry in place of an earlier one.
pub open spec fn takes_in<I, V: Clone + ValueToIdentifier<I>>(
    before: Map<I, ExecutionArg<V>>,
    args: Seq<ExecutionArg<V>>,
    after: Map<I, ExecutionArg<V>>,
) -> bool {
    forall|x: I|
        if #[trigger] execution::last_position(execution::arg_values(args), x) >= 0 {
            let p = execution::last_position(execution::arg_values(args), x);
            &&& after.contains_key(x)
            &&& cloned(args[p].value, after[x].value)
            &&& after[x].state == args[p].state
        } else {
            after.contains_key(x) == before.contains_key(x) && (before.contains_key(x) ==> after[x]
                == before[x])
        }
}

/// The values `values`, in the same order, each marked as updated.
pub open spec fn as_updates<V>(values: Seq<V>) -> Seq<ExecutionArg<V>> {
    Seq::new(values.len(), |i: int| ExecutionArg { value: values[i], state: ArgState::Updated })
}

/// `arg` is what a plan is handed for identifier `x`: the entry of the
/// batch, where the batch has one, and else the stored value, marked as
/// unmodified.
pub open spec fn is_argument_for<I, V: Clone + ValueToIdentifier<I>>(
    state: Map<I, ExecutionArg<V>>,
    x: I,
    arg: ExecutionArg<V>,
) -> bool {
    if state.contains_key(x) {
        cloned(state[x].value, arg.value) && arg.state == state[x].state
    } else {
        arg.value.identifier() == x && arg.state == ArgState::Unmodified
    }
}

/// `args` holds one argument for each identifier of `keys`, in the same order.
pub open spec fn are_arguments_for<I, V: Clone + ValueToIdentifier<I>>(
    state: Map<I, ExecutionArg<V>>,
    keys: Seq<I>,
    args: Seq<ExecutionArg<V>>,
) -> bool {
    &&& keys.len() == args.len()
    &&& keys.no_duplicates()
    &&& forall|i: int| 0 <= i < keys.len() ==> is_argument_for(state, #[trigger] keys[i], args[i])
}

/// Stores a copy of each entry of `args` in `state`, under the identifier
/// of its value.
pub fn take_in<I: Hash + Eq + Copy, V: Clone + ValueToIdentifier<I>>(
    state: &mut HashMap<I, ExecutionArg<V>>,
    args: &Vec<ExecutionArg<V>>,
)
    requires
        vstd::std_specs::hash::obeys_key_model::<I>(),
    ensures
        takes_in(old(state)@, args@, final(state)@),
{
    let n = args.len();
    let mut j: usize = 0;
    let ghost values = execution::arg_values(args@);
    assert(args@.take(0) =~= Seq::<ExecutionArg<V>>::empty());
    assert(execution::arg_values(args@.take(0)) =~= Seq::<V>::empty());
    while j < n
        invariant
            vstd::std_specs::hash::obeys_key_model::<I>(),
            n == args@.len(),
            0 <= j <= n,
            takes_in(old(state)@, args@.take(j as int), state@),
        decreases n - j,
    {
        let identifier = args[j].value.to_identifier();
        let copy = ExecutionArg { value: args[j].value.clone(), state: args[j].state };
        state.insert(identifier, copy);
        proof {
            let shorter = execution::arg_values(args@.take(j as int));
            let longer = execution::arg_values(args@.take(j + 1));
            assert(longer.drop_last() =~= shorter);
            assert(longer.last() == args@[j as int].value);
            assert forall|x: I|
                if #[trigger] execution::last_position(longer, x) >= 0 {
                    let p = execution::last_position(longer, x);
                    &&& state@.contains_key(x)
                    &&& cloned(args@.take(j + 1)[p].value, state@[x].value)
                    &&& state@[x].state == args@.take(j + 1)[p].state
                } else {
                    state@.contains_key(x) == old(state)@.contains_key(x) && (old(
                        state,
                    )@.contains_key(x) ==> state@[x] == old(state)@[x])
                } by {
                if x != identifier {
                    let p = execution::last_position(shorter, x);
                    execution::lemma_last_position_bounds(shorter, x);
                    if p >= 0 {
                        assert(args@.take(j + 1)[p] == args@.take(j as int)[p]);
                    }
                }
            }
        }
        j += 1;
    }
    assert(args@.take(n as int) =~= args@);
}

/// The state of a batch at its start: each of the changed values under its
/// identifier, marked as updated.
pub fn initial_state<I: Hash + Eq + Copy, V: Clone + ValueToIdentifier<I>>(
    input_updates: &Vec<V>,
) -> (state: HashMap<I, ExecutionArg<V>>)
    requires
        vstd::std_specs::hash::obeys_key_model::<I>(),
    ensures
        takes_in(Map::<I, ExecutionArg<V>>::empty(), as_updates(input_updates@), state@),
{
    let mut state: HashMap<I, ExecutionArg<V>> = HashMap::new();
    let n = input_updates.len();
    let mut j: usize = 0;
    let ghost updates = as_updates(input_updates@);
    let ghost empty = Map::<I, ExecutionArg<V>>::empty();
    assert(execution::arg_values(updates.take(0)) =~= Seq::<V>::empty());
    while j < n
        invariant
            vstd::std_specs::hash::obeys_key_model::<I>(),
            n == input_updates@.len(),
            updates == as_updates(input_updates@),
            empty == Map::<I, ExecutionArg<V>>::empty(),
            0 <= j <= n,
            takes_in(empty, updates.take(j as int), state@),
        decreases n - j,
    {
        let identifier = input_updates[j].to_identifier();
        let copy = ExecutionArg { value: input_updates[j].clone(), state: ArgState::Updated };
        state.insert(identifier, copy);
        proof {
            let shorter = execution::arg_values(updates.take(j as int));
            let longer = execution::arg_values(updates.take(j + 1));
            assert(longer.drop_last() =~= shorter);
            assert(longer.last() == input_updates@[j as int]);
            assert forall|x: I|
                if #[trigger] execution::last_position(longer, x) >= 0 {
                    let p = execution::last_position(longer, x);
                    &&& state@.contains_key(x)
                    &&& cloned(updates.take(j + 1)[p].value, state@[x].value)
                    &&& state@[x].state == updates.take(j + 1)[p].state
                } else {
                    state@.contains_key(x) == empty.contains_key(x) && (empty.contains_key(x)
                        ==> state@[x] == empty[x])
                } by {
                if x != identifier {
                    let p = execution::last_position(shorter, x);
                    execution::lemma_last_position_bounds(shorter, x);
                    if p >= 0 {
                        assert(updates.take(j + 1)[p] == updates.take(j as int)[p]);
                    }
                }
            }
        }
        j += 1;
    }
    assert(updates.take(n as int) =~= updates);
    state
}

/// Reads the current value of each of `identifiers` from the store.
pub fn get_values_from_identifiers<C: Context>(context: &C, identifiers: &HashSet<C::I>) -> (values:
    Vec<C::V>)
    requires
        vstd::std_specs::hash::obeys_key_model::<C::I>(),
    ensures
        exists|keys: Seq<C::I>|
            {
                &&& #[trigger] keys.len() == values@.len()
                &&& keys.no_duplicates()
                &&& forall|x: C::I| keys.contains(x) <==> identifiers@.contains(x)
                &&& forall|i: int|
                    0 <= i < keys.len() ==> (#[trigger] values@[i]).identifier() == keys[i]
            },
{
    let keys = planner::identifiers_of(identifiers);
    let mut values: Vec<C::V> = Vec::new();
    let n = keys.len();
    let mut i: usize = 0;
    while i < n
        invariant
            n == keys@.len(),
            0 <= i <= n,
            values@.len() == i,
            forall|j: int| 0 <= j < i ==> (#[trigger] values@[j]).identifier() == keys@[j],
        decreases n - i,
    {
        let value = context.read_value(&keys[i]);
        values.push(value);
        i += 1;
    }
    proof {
        assert(keys@.len() == values@.len());
    }
    values
}

/// The arguments for running `plan`: one for each identifier that a
/// callback of `plan` reads, taken from the batch where the batch has the
/// identifier, and else read from the store and marked as unmodified.
pub fn get_execution_args<C: Context, F>(
    context: &C,
    executor: &Executor<C::I, F>,
    updated_state: &HashMap<C::I, ExecutionArg<C::V>>,
    plan: &Vec<CallbackId>,
) -> (execution_args: Vec<ExecutionArg<C::V>>)
    requires
        executor.wf(),
        forall|k: int|
            0 <= k < plan@.len() ==> executor.callbacks_container.contains(#[trigger] plan@[k]),
    ensures
        exists|keys: Seq<C::I>|
            {
                &&& #[trigger] are_arguments_for(updated_state@, keys, execution_args@)
                &&& forall|x: C::I|
                    keys.contains(x) <==> executor::reads_within(
                        &executor.callbacks_container,
                        plan@,
                        plan@.len() as int,
                        x,
                    )
            },
{
    proof {
        executor.callbacks_container.lemma_wf_identifiers();
    }
    let required_args = executor.get_required_args(plan);
    let keys = planner::identifiers_of(&required_args);
    let mut execution_args: Vec<ExecutionArg<C::V>> = Vec::new();
    let n = keys.len();
    let mut i: usize = 0;
    while i < n
        invariant
            vstd::std_specs::hash::obeys_key_model::<C::I>(),
            n == keys@.len(),
            0 <= i <= n,
            execution_args@.len() == i,
            forall|j: int|
                0 <= j < i ==> is_argument_for(updated_state@, keys@[j], #[trigger] execution_args@[j]),
        decreases n - i,
    {
        let identifier = keys[i];
        let arg = match updated_state.get(&identifier) {
            Some(arg) => ExecutionArg { value: arg.value.clone(), state: arg.state },
            None => ExecutionArg {
                value: context.read_value(&identifier),
                state: ArgState::Unmodified,
            },
        };
        execution_args.push(arg);
        i += 1;
    }
    proof {
        assert(are_arguments_for(updated_state@, keys@, execution_args@));
    }
    execution_args
}

/// The keys of `map`, each once, in the order in which the map hands them
/// out.
pub fn keys_of<I: Hash + Eq + Copy, T>(map: &HashMap<I, T>) -> (list: Vec<I>)
    requires
        vstd::std_specs::hash::obeys_key_model::<I>(),
    ensures
        list@.no_duplicates(),
        forall|x: I| #[trigger] list@.contains(x) <==> map@.contains_key(x),
{
    let mut list: Vec<I> = Vec::new();
    for x in it: map.keys()
        invariant
            list@.len() == it.index(),
            forall|j: int| 0 <= j < list@.len() ==> list@[j] == *it.seq()[j],
    {
        list.push(*x);
    }
    proof {
        let handed = map.keys().remaining().unref();
        assert(list@ =~= handed);
        assert(handed.to_set() == map@.dom());
        assert forall|x: I| #[trigger] list@.contains(x) <==> map@.contains_key(x) by {
            assert(handed.to_set().contains(x) <==> handed.contains(x));
        }
    }
    list
}

/// `values` holds the value of every entry of `state` that is marked as
/// updated, once for each such identifier of `keys`, and nothing else.
pub open spec fn are_updates_of<I, V>(
    state: Map<I, ExecutionArg<V>>,
    keys: Seq<I>,
    values: Seq<V>,
) -> bool
    decreases keys.len(),
{
    if keys.len() == 0 {
        values.len() == 0
    } else if state.contains_key(keys.last()) && state[keys.last()].state == ArgState::Updated {
        &&& values.len() > 0
        &&& values.last() == state[keys.last()].value
        &&& are_updates_of(state, keys.drop_last(), values.drop_last())
    } else {
        are_updates_of(state, keys.drop_last(), values)
    }
}

/// The values of a batch that have to be written back: those marked as
/// updated.
pub fn updated_values<I: Hash + Eq + Copy, V>(updated_state: HashMap<I, ExecutionArg<V>>) -> (values:
    Vec<V>)
    requires
        vstd::std_specs::hash::obeys_key_model::<I>(),
    ensures
        exists|keys: Seq<I>|
            {
                &&& #[trigger] are_updates_of(updated_state@, keys, values@)
                &&& keys.no_duplicates()
                &&& forall|x: I| keys.contains(x) <==> updated_state@.contains_key(x)
            },
{
    let keys = keys_of(&updated_state);
    let mut remaining = updated_state;
    let mut values: Vec<V> = Vec::new();
    let n = keys.len();
    let mut i: usize = 0;
    assert(keys@.take(0) =~= Seq::<I>::empty());
    while i < n
        invariant
            vstd::std_specs::hash::obeys_key_model::<I>(),
            n == keys@.len(),
            keys@.no_duplicates(),
            0 <= i <= n,
            forall|j: int|
                i <= j < n && updated_state@.contains_key(keys@[j]) ==> remaining@.contains_key(
                    #[trigger] keys@[j],
                ) && remaining@[keys@[j]] == updated_state@[keys@[j]],
            forall|x: I| remaining@.contains_key(x) ==> updated_state@.contains_key(x),
            are_updates_of(updated_state@, keys@.take(i as int), values@),
        decreases n - i,
    {
        let key = keys[i];
        let ghost sofar = values@;
        match remaining.remove(&key) {
            Some(arg) => {
                if arg.state == ArgState::Updated {
                    values.push(arg.value);
                }
            },
            None => {},
        }
        proof {
            let shorter = keys@.take(i as int);
            let longer = keys@.take(i + 1);
            assert(longer.drop_last() =~= shorter);
            assert(longer.last() == key);
            if updated_state@.contains_key(key) && updated_state@[key].state == ArgState::Updated {
                assert(values@.drop_last() =~= sofar);
            }
            assert forall|j: int|
                i + 1 <= j < n && updated_state@.contains_key(
                    keys@[j],
                ) implies remaining@.contains_key(#[trigger] keys@[j]) && remaining@[keys@[j]]
                == updated_state@[keys@[j]] by {
                assert(keys@[j] != keys@[i as int]);
            }
        }
        i += 1;
    }
    proof {
        assert(keys@.take(n as int) =~= keys@);
    }
    values
}

/// Writes the values of a batch that are marked as updated back to the store.
pub fn apply_updates<C: Context>(context: &C, updated_state: HashMap<C::I, ExecutionArg<C::V>>)
    requires
        vstd::std_specs::hash::obeys_key_model::<C::I>(),
{
    let values = updated_values(updated_state);
    for value in it: values.into_iter() {
        context.update_value(value);
    }
}

} // verus!
