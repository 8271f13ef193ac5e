use dust::{ArgState, Callback, CallbackId, CallbackType, ExecutionArg, Executor, ValueToIdentifier};
use std::collections::HashMap;

#[derive(Clone, Copy, Debug, PartialEq, Eq, Hash)]
enum Id {
    Count,
    Double,
    Label,
}

#[derive(Clone, Debug, PartialEq)]
enum Value {
    Count(u32),
    Double(u32),
    Label(String),
}

impl ValueToIdentifier<Id> for Value {
    fn identifier(&self) -> Id {
        self.to_identifier()
    }

    fn to_identifier(&self) -> Id {
        match self {
            Value::Count(_) => Id::Count,
            Value::Double(_) => Id::Double,
            Value::Label(_) => Id::Label,
        }
    }
}

type Body = fn(&HashMap<Id, Value>) -> Vec<Value>;

fn count_of(state: &HashMap<Id, Value>) -> u32 {
    match state.get(&Id::Count) {
        Some(Value::Count(n)) => *n,
        _ => panic!("count was not supplied"),
    }
}

fn double_of(state: &HashMap<Id, Value>) -> u32 {
    match state.get(&Id::Double) {
        Some(Value::Double(n)) => *n,
        _ => panic!("double was not supplied"),
    }
}

fn doubling(state: &HashMap<Id, Value>) -> Vec<Value> {
    vec![Value::Double(2 * count_of(state))]
}

fn labelling(state: &HashMap<Id, Value>) -> Vec<Value> {
    vec![Value::Label(format!("{} doubled is {}", count_of(state), double_of(state)))]
}

fn nothing(_state: &HashMap<Id, Value>) -> Vec<Value> {
    vec![]
}

fn bump_twice(state: &HashMap<Id, Value>) -> Vec<Value> {
    let n = count_of(state);
    vec![Value::Count(n + 1), Value::Count(n + 2)]
}

fn arg(value: Value, state: ArgState) -> ExecutionArg<Value> {
    ExecutionArg { value, state }
}

fn executor() -> Executor<Id, Body> {
    let mut executor: Executor<Id, Body> = Executor::new();
    executor.register_callback(Callback::new(
        "doubling",
        Some(doubling as Body),
        vec![Id::Count],
        vec![Id::Double],
        CallbackType::Client,
    ));
    executor.register_callback(Callback::new(
        "labelling",
        Some(labelling as Body),
        vec![Id::Count, Id::Double],
        vec![Id::Label],
        CallbackType::Server,
    ));
    executor.register_callback(Callback::new(
        "nothing",
        Some(nothing as Body),
        vec![Id::Label],
        vec![],
        CallbackType::Client,
    ));
    executor.register_callback(Callback::new(
        "bump_twice",
        Some(bump_twice as Body),
        vec![Id::Count],
        vec![Id::Count],
        CallbackType::Client,
    ));
    executor
}

fn values(outputs: &Vec<ExecutionArg<Value>>) -> Vec<Value> {
    outputs.iter().map(|a| a.value.clone()).collect()
}

#[test]
fn later_callbacks_see_what_earlier_ones_produced() {
    let executor = executor();
    let args = vec![arg(Value::Count(21), ArgState::Updated), arg(Value::Double(0), ArgState::Unmodified)];
    let outputs = executor.execute_plan(&args, &vec![CallbackId(0), CallbackId(1)]);
    assert_eq!(
        values(&outputs),
        vec![Value::Double(42), Value::Label("21 doubled is 42".to_string())]
    );
    assert!(outputs.iter().all(|a| a.state == ArgState::Updated));
}

#[test]
fn outputs_follow_plan_order() {
    let executor = executor();
    let args = vec![arg(Value::Count(1), ArgState::Updated), arg(Value::Double(5), ArgState::Unmodified)];
    let outputs = executor.execute_plan(&args, &vec![CallbackId(1), CallbackId(0)]);
    assert_eq!(
        values(&outputs),
        vec![Value::Label("1 doubled is 5".to_string()), Value::Double(2)]
    );
}

#[test]
fn empty_plan_and_silent_callback_produce_nothing() {
    let executor = executor();
    let args = vec![arg(Value::Count(1), ArgState::Updated)];
    assert!(executor.execute_plan(&args, &vec![]).is_empty());
    assert!(executor.execute_plan(&args, &vec![CallbackId(2)]).is_empty());
}

#[test]
fn last_writer_of_an_identifier_wins() {
    let executor = executor();
    // Of two arguments for one identifier the later one counts.
    let args = vec![arg(Value::Count(1), ArgState::Updated), arg(Value::Count(10), ArgState::Updated)];
    let outputs = executor.execute_plan(&args, &vec![CallbackId(0)]);
    assert_eq!(values(&outputs), vec![Value::Double(20)]);
    // Of two values that one callback produces the later one is seen next.
    let outputs = executor.execute_plan(&args, &vec![CallbackId(3), CallbackId(0)]);
    assert_eq!(values(&outputs), vec![Value::Count(11), Value::Count(12), Value::Double(24)]);
}

#[test]
fn running_a_plan_twice_gives_the_same_outputs() {
    let executor = executor();
    let args = vec![arg(Value::Count(7), ArgState::Updated), arg(Value::Double(0), ArgState::Unmodified)];
    let plan = vec![CallbackId(3), CallbackId(0), CallbackId(1), CallbackId(2)];
    let first = executor.execute_plan(&args, &plan);
    let second = executor.execute_plan(&args, &plan);
    assert_eq!(values(&first), values(&second));
    assert_eq!(
        values(&first),
        vec![
            Value::Count(8),
            Value::Count(9),
            Value::Double(18),
            Value::Label("9 doubled is 18".to_string())
        ]
    );
}

#[test]
fn execution_works_before_and_after_registration_is_complete() {
    let mut executor: Executor<Id, Body> = Executor::new();
    executor.register_callback(Callback::new(
        "doubling",
        Some(doubling as Body),
        vec![Id::Count],
        vec![Id::Double],
        CallbackType::Client,
    ));
    let args = vec![arg(Value::Count(2), ArgState::Updated)];
    let before = executor.execute_plan(&args, &vec![CallbackId(0)]);
    executor.complete_registration();
    let after = executor.execute_plan(&args, &vec![CallbackId(0)]);
    assert_eq!(values(&before), vec![Value::Double(4)]);
    assert_eq!(values(&after), vec![Value::Double(4)]);
}

#[test]
fn callback_that_feeds_itself_cannot_be_frozen() {
    let mut executor = executor();
    assert_eq!(
        executor.try_complete_registration(),
        Err(vec![CallbackId(3), CallbackId(3)])
    );
}
