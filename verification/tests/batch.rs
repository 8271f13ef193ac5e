use dust::batch::{begin_updates, resume_updates};
use dust::context::{
    apply_updates, get_execution_args, get_values_from_identifiers, initial_state, take_in,
    updated_values,
};
use dust::{
    ArgState, BatchStep, Callback, CallbackId, CallbackType, Context, ContextManager, ExecutionArg,
    Executor, ValueToIdentifier,
};
use std::cell::RefCell;
use std::collections::{HashMap, HashSet};

#[derive(Clone, Copy, Debug, PartialEq, Eq, Hash, PartialOrd, Ord)]
enum Id {
    X,
    Y,
    Z,
    W,
}

#[derive(Clone, Copy, Debug, PartialEq, Eq, PartialOrd, Ord)]
struct Value(Id, i64);

impl ValueToIdentifier<Id> for Value {
    fn identifier(&self) -> Id {
        self.0
    }

    fn to_identifier(&self) -> Id {
        self.0
    }
}

type Body = fn(&HashMap<Id, Value>) -> Vec<Value>;

fn plus_one(state: &HashMap<Id, Value>) -> Vec<Value> {
    vec![Value(Id::Y, state[&Id::X].1 + 1)]
}

fn twice(state: &HashMap<Id, Value>) -> Vec<Value> {
    vec![Value(Id::Z, state[&Id::Y].1 * 2)]
}

fn minus_x(state: &HashMap<Id, Value>) -> Vec<Value> {
    vec![Value(Id::W, state[&Id::Z].1 - state[&Id::X].1)]
}

struct Store {
    values: RefCell<HashMap<Id, Value>>,
    reads: RefCell<Vec<Id>>,
    manager: ContextManager<Id>,
}

impl Store {
    fn new() -> Store {
        let mut values = HashMap::new();
        for (id, n) in [(Id::X, 1), (Id::Y, 2), (Id::Z, 3), (Id::W, 4)] {
            values.insert(id, Value(id, n));
        }
        Store { values: RefCell::new(values), reads: RefCell::new(Vec::new()), manager: ContextManager::new() }
    }

    fn get(&self, id: Id) -> i64 {
        self.values.borrow()[&id].1
    }
}

impl Context for Store {
    type I = Id;
    type V = Value;

    fn update_value(&self, value: Value) {
        self.values.borrow_mut().insert(value.0, value);
    }

    fn read_value(&self, identifier: &Id) -> Value {
        self.reads.borrow_mut().push(*identifier);
        self.values.borrow()[identifier]
    }

    fn get_manager(&self) -> &ContextManager<Id> {
        &self.manager
    }
}

// The client has no body for the remote callback; the server has all of them.
fn executor(with_remote_body: bool) -> Executor<Id, Body> {
    let mut executor: Executor<Id, Body> = Executor::new();
    executor.register_callback(Callback::new(
        "plus_one",
        Some(plus_one as Body),
        vec![Id::X],
        vec![Id::Y],
        CallbackType::Client,
    ));
    executor.register_callback(Callback::new(
        "twice",
        if with_remote_body { Some(twice as Body) } else { None },
        vec![Id::Y],
        vec![Id::Z],
        CallbackType::Server,
    ));
    executor.register_callback(Callback::new(
        "minus_x",
        Some(minus_x as Body),
        vec![Id::Z, Id::X],
        vec![Id::W],
        CallbackType::Client,
    ));
    executor.complete_registration();
    executor
}

fn sorted(mut entries: Vec<(Value, ArgState)>) -> Vec<(Value, ArgState)> {
    entries.sort_by_key(|e| e.0);
    entries
}

fn entries(args: &Vec<ExecutionArg<Value>>) -> Vec<(Value, ArgState)> {
    sorted(args.iter().map(|a| (a.value, a.state)).collect())
}

fn state_entries(state: &HashMap<Id, ExecutionArg<Value>>) -> Vec<(Value, ArgState)> {
    sorted(state.values().map(|a| (a.value, a.state)).collect())
}

#[test]
fn batch_runs_pre_phase_then_asks_for_the_remote_one() {
    let store = Store::new();
    let client = executor(false);
    let step = begin_updates(&store, &client, &vec![Value(Id::X, 5)]);
    match step {
        BatchStep::AwaitRemote { batch, call } => {
            assert_eq!(batch.plan.client_pre_plan, vec![CallbackId(0)]);
            assert_eq!(batch.plan.server_plan, vec![CallbackId(1)]);
            assert_eq!(batch.plan.client_post_plan, vec![CallbackId(2)]);
            assert_eq!(call.server_plan, vec![CallbackId(1)]);
            assert_eq!(entries(&call.execution_args), vec![(Value(Id::Y, 6), ArgState::Updated)]);
            assert_eq!(
                state_entries(&batch.updated_state),
                vec![(Value(Id::X, 5), ArgState::Updated), (Value(Id::Y, 6), ArgState::Updated)]
            );
        }
        _ => panic!("the plan has a remote phase"),
    }
    // Nothing was read from the store, and nothing written to it.
    assert!(store.reads.borrow().is_empty());
    assert_eq!(store.get(Id::X), 1);
    assert_eq!(store.get(Id::Y), 2);
}

#[test]
fn batch_completes_after_the_remote_answer() {
    let store = Store::new();
    let client = executor(false);
    let server = executor(true);
    let (batch, call) = match begin_updates(&store, &client, &vec![Value(Id::X, 5)]) {
        BatchStep::AwaitRemote { batch, call } => (batch, call),
        _ => panic!("the plan has a remote phase"),
    };
    let response = server.execute_plan(&call.execution_args, &call.server_plan);
    assert_eq!(entries(&response), vec![(Value(Id::Z, 12), ArgState::Updated)]);
    let done = match resume_updates(&store, &client, batch, Some(response)) {
        BatchStep::Complete { batch } => batch,
        _ => panic!("the remote call succeeded"),
    };
    assert_eq!(
        state_entries(&done.updated_state),
        vec![
            (Value(Id::X, 5), ArgState::Updated),
            (Value(Id::Y, 6), ArgState::Updated),
            (Value(Id::Z, 12), ArgState::Updated),
            (Value(Id::W, 7), ArgState::Updated),
        ]
    );
    apply_updates(&store, done.updated_state);
    assert_eq!(
        [store.get(Id::X), store.get(Id::Y), store.get(Id::Z), store.get(Id::W)],
        [5, 6, 12, 7]
    );
}

#[test]
fn failed_remote_call_abandons_the_batch() {
    let store = Store::new();
    let client = executor(false);
    let batch = match begin_updates(&store, &client, &vec![Value(Id::X, 5)]) {
        BatchStep::AwaitRemote { batch, .. } => batch,
        _ => panic!("the plan has a remote phase"),
    };
    assert!(matches!(resume_updates(&store, &client, batch, None), BatchStep::Abandoned));
    assert_eq!(
        [store.get(Id::X), store.get(Id::Y), store.get(Id::Z), store.get(Id::W)],
        [1, 2, 3, 4]
    );
}

#[test]
fn batch_without_remote_phase_completes_at_once() {
    let store = Store::new();
    let client = executor(false);
    // Z is read by the last callback only, which also needs X from the store.
    let done = match begin_updates(&store, &client, &vec![Value(Id::Z, 10)]) {
        BatchStep::Complete { batch } => batch,
        _ => panic!("the plan has no remote phase"),
    };
    assert_eq!(done.plan.client_pre_plan, vec![CallbackId(2)]);
    assert!(done.plan.server_plan.is_empty());
    assert_eq!(
        state_entries(&done.updated_state),
        vec![(Value(Id::Z, 10), ArgState::Updated), (Value(Id::W, 9), ArgState::Updated)]
    );
    assert_eq!(*store.reads.borrow(), vec![Id::X]);
    apply_updates(&store, done.updated_state);
    assert_eq!(
        [store.get(Id::X), store.get(Id::Y), store.get(Id::Z), store.get(Id::W)],
        [1, 2, 10, 9]
    );
}

#[test]
fn batch_that_triggers_nothing_only_stores_the_changed_values() {
    let store = Store::new();
    let client = executor(false);
    let done = match begin_updates(&store, &client, &vec![Value(Id::W, 40), Value(Id::W, 41)]) {
        BatchStep::Complete { batch } => batch,
        _ => panic!("nothing reads W"),
    };
    assert!(done.plan.client_pre_plan.is_empty());
    assert!(done.plan.client_post_plan.is_empty());
    assert_eq!(state_entries(&done.updated_state), vec![(Value(Id::W, 41), ArgState::Updated)]);
}

#[test]
fn arguments_come_from_the_batch_first_and_from_the_store_else() {
    let store = Store::new();
    let client = executor(false);
    let state: HashMap<Id, ExecutionArg<Value>> = initial_state(&vec![Value(Id::Z, 30)]);
    let args = get_execution_args(&store, &client, &state, &vec![CallbackId(2)]);
    assert_eq!(
        entries(&args),
        vec![(Value(Id::X, 1), ArgState::Unmodified), (Value(Id::Z, 30), ArgState::Updated)]
    );
    assert!(get_execution_args(&store, &client, &state, &vec![]).is_empty());
}

#[test]
fn unmodified_values_are_not_written_back() {
    let store = Store::new();
    let mut state: HashMap<Id, ExecutionArg<Value>> = initial_state(&vec![Value(Id::X, 9)]);
    take_in(
        &mut state,
        &vec![
            ExecutionArg { value: Value(Id::Y, 8), state: ArgState::Unmodified },
            ExecutionArg { value: Value(Id::Z, 7), state: ArgState::Updated },
            ExecutionArg { value: Value(Id::Z, 6), state: ArgState::Unmodified },
        ],
    );
    let mut values = updated_values(state.clone());
    values.sort();
    assert_eq!(values, vec![Value(Id::X, 9)]);
    apply_updates(&store, state);
    assert_eq!(
        [store.get(Id::X), store.get(Id::Y), store.get(Id::Z), store.get(Id::W)],
        [9, 2, 3, 4]
    );
}

#[test]
fn bulk_read_returns_one_value_per_identifier() {
    let store = Store::new();
    let wanted: HashSet<Id> = [Id::W, Id::Y].into_iter().collect();
    let mut values = get_values_from_identifiers(&store, &wanted);
    values.sort();
    assert_eq!(values, vec![Value(Id::Y, 2), Value(Id::W, 4)]);
    assert!(get_values_from_identifiers(&store, &HashSet::new()).is_empty());
}

#[test]
fn manager_starts_uninitialised() {
    let manager: ContextManager<Id> = ContextManager::new();
    assert!(!manager.initialized);
    assert!(manager.value_versions.is_empty());
}

#[test]
fn batch_before_registration_is_complete_only_holds_the_changed_values() {
    let store = Store::new();
    let mut open: Executor<Id, Body> = Executor::new();
    open.register_callback(Callback::new(
        "plus_one",
        Some(plus_one as Body),
        vec![Id::X],
        vec![Id::Y],
        CallbackType::Client,
    ));
    let done = match begin_updates(&store, &open, &vec![Value(Id::X, 5)]) {
        BatchStep::Complete { batch } => batch,
        _ => panic!("nothing is planned before registration is complete"),
    };
    assert!(done.plan.client_pre_plan.is_empty());
    assert_eq!(state_entries(&done.updated_state), vec![(Value(Id::X, 5), ArgState::Updated)]);
}
