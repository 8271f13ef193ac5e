use dust::{Callback, CallbackId, CallbackType, Executor};
use std::collections::{HashMap, HashSet};

#[derive(Clone, Copy, Debug, PartialEq, Eq, Hash)]
enum Id {
    X,
    Y,
    Z,
    W,
    V,
    P,
    Q,
}

type Body = fn(&HashMap<Id, u32>) -> Vec<u32>;

fn callback(name: &'static str, inputs: &[Id], outputs: &[Id], cb_type: CallbackType) -> Callback<Id, Body> {
    Callback::new(name, None, inputs.to_vec(), outputs.to_vec(), cb_type)
}

fn set(ids: &[Id]) -> HashSet<Id> {
    ids.iter().copied().collect()
}

fn chain() -> Executor<Id, Body> {
    let mut executor: Executor<Id, Body> = Executor::new();
    executor.register_callback(callback("f1", &[Id::X], &[Id::Y], CallbackType::Client));
    executor.register_callback(callback("f2", &[Id::Y], &[Id::Z], CallbackType::Server));
    executor.register_callback(callback("f3", &[Id::Z], &[Id::W], CallbackType::Client));
    executor.complete_registration();
    executor
}

#[test]
fn chain_splits_into_three_phases() {
    let executor = chain();
    let plan = executor.get_execution_plan(&set(&[Id::X]));
    assert_eq!(plan.client_pre_plan, vec![CallbackId(0)]);
    assert_eq!(plan.server_plan, vec![CallbackId(1)]);
    assert_eq!(plan.client_post_plan, vec![CallbackId(2)]);
}

#[test]
fn remote_phase_of_chain_needs_its_input() {
    let executor = chain();
    let plan = executor.get_execution_plan(&set(&[Id::X]));
    assert_eq!(executor.get_required_args(&plan.server_plan), set(&[Id::Y]));
}

#[test]
fn chain_needs_no_state_beyond_the_update() {
    let executor = chain();
    let full = vec![CallbackId(0), CallbackId(1), CallbackId(2)];
    assert_eq!(executor.get_required_state(&vec![Id::X], &full), set(&[]));
}

#[test]
fn update_in_the_middle_of_the_chain_skips_what_is_upstream() {
    let executor = chain();
    let plan = executor.get_execution_plan(&set(&[Id::Y]));
    assert_eq!(plan.client_pre_plan, vec![]);
    assert_eq!(plan.server_plan, vec![CallbackId(1)]);
    assert_eq!(plan.client_post_plan, vec![CallbackId(2)]);
    let plan = executor.get_execution_plan(&set(&[Id::Z]));
    assert_eq!(plan.client_pre_plan, vec![CallbackId(2)]);
    assert_eq!(plan.server_plan, vec![]);
    assert_eq!(plan.client_post_plan, vec![]);
}

#[test]
fn update_of_an_identifier_nobody_reads_gives_an_empty_plan() {
    let executor = chain();
    let plan = executor.get_execution_plan(&set(&[Id::W]));
    assert!(plan.client_pre_plan.is_empty());
    assert!(plan.server_plan.is_empty());
    assert!(plan.client_post_plan.is_empty());
    let plan = executor.get_execution_plan(&set(&[]));
    assert!(plan.client_pre_plan.is_empty());
    assert!(plan.server_plan.is_empty());
    assert!(plan.client_post_plan.is_empty());
}

#[test]
fn local_callback_is_pre_local_whatever_is_remote_elsewhere() {
    let mut executor: Executor<Id, Body> = Executor::new();
    executor.register_callback(callback("remote_p", &[Id::P], &[Id::Q], CallbackType::Server));
    executor.register_callback(callback("f4", &[Id::X], &[Id::V], CallbackType::Client));
    executor.register_callback(callback("remote_q", &[Id::Q], &[Id::W], CallbackType::Server));
    executor.complete_registration();
    let plan = executor.get_execution_plan(&set(&[Id::X]));
    assert_eq!(plan.client_pre_plan, vec![CallbackId(1)]);
    assert_eq!(plan.server_plan, vec![]);
    assert_eq!(plan.client_post_plan, vec![]);
}

#[test]
fn local_callback_between_remote_ones_runs_remotely() {
    // r1 (remote) -> mid (local) -> r2 (remote); side (local) hangs off r1.
    let mut executor: Executor<Id, Body> = Executor::new();
    executor.register_callback(callback("r1", &[Id::X], &[Id::Y], CallbackType::Server));
    executor.register_callback(callback("mid", &[Id::Y], &[Id::Z], CallbackType::Client));
    executor.register_callback(callback("r2", &[Id::Z], &[Id::W], CallbackType::Server));
    executor.register_callback(callback("side", &[Id::Y], &[Id::V], CallbackType::Client));
    executor.complete_registration();
    let plan = executor.get_execution_plan(&set(&[Id::X]));
    assert_eq!(plan.client_pre_plan, vec![]);
    assert_eq!(plan.client_post_plan, vec![CallbackId(3)]);
    let mut server = plan.server_plan.clone();
    server.sort_by_key(|id| id.0);
    assert_eq!(server, vec![CallbackId(0), CallbackId(1), CallbackId(2)]);
    let c = &executor.callbacks_container;
    for pair in plan.server_plan.windows(2) {
        assert!(c.get_topological_rank(&pair[0]) < c.get_topological_rank(&pair[1]));
    }
}

#[test]
fn callback_reached_twice_is_planned_once() {
    // a -> b, a -> c, b -> d, c -> d
    let mut executor: Executor<Id, Body> = Executor::new();
    executor.register_callback(callback("d", &[Id::Z, Id::W], &[Id::V], CallbackType::Client));
    executor.register_callback(callback("b", &[Id::Y], &[Id::Z], CallbackType::Client));
    executor.register_callback(callback("c", &[Id::Y], &[Id::W], CallbackType::Client));
    executor.register_callback(callback("a", &[Id::X], &[Id::Y], CallbackType::Client));
    executor.complete_registration();
    let plan = executor.get_execution_plan(&set(&[Id::X, Id::Y]));
    assert_eq!(plan.client_pre_plan.len(), 4);
    assert_eq!(plan.client_pre_plan[0], CallbackId(3));
    assert_eq!(plan.client_pre_plan[3], CallbackId(0));
    assert!(plan.server_plan.is_empty());
    assert!(plan.client_post_plan.is_empty());
}

#[test]
fn phases_are_disjoint_cover_the_reachable_and_follow_rank() {
    let mut executor: Executor<Id, Body> = Executor::new();
    executor.register_callback(callback("a", &[Id::X], &[Id::Y], CallbackType::Client));
    executor.register_callback(callback("b", &[Id::Y], &[Id::Z], CallbackType::Server));
    executor.register_callback(callback("c", &[Id::Z], &[Id::W], CallbackType::Client));
    executor.register_callback(callback("d", &[Id::X], &[Id::V], CallbackType::Client));
    executor.register_callback(callback("e", &[Id::P], &[Id::Q], CallbackType::Server));
    executor.complete_registration();
    let plan = executor.get_execution_plan(&set(&[Id::X]));
    let c = &executor.callbacks_container;
    let mut all: Vec<CallbackId> = Vec::new();
    for phase in [&plan.client_pre_plan, &plan.server_plan, &plan.client_post_plan] {
        for pair in phase.windows(2) {
            assert!(c.get_topological_rank(&pair[0]) < c.get_topological_rank(&pair[1]));
        }
        all.extend(phase.iter().copied());
    }
    let distinct: HashSet<usize> = all.iter().map(|id| id.0).collect();
    assert_eq!(distinct.len(), all.len());
    assert_eq!(distinct, [0usize, 1, 2, 3].into_iter().collect());
    assert_eq!(plan.server_plan, vec![CallbackId(1)]);
    assert_eq!(plan.client_post_plan, vec![CallbackId(2)]);
}

#[test]
fn plan_is_empty_before_registration_is_complete() {
    let mut executor: Executor<Id, Body> = Executor::new();
    executor.register_callback(callback("a", &[Id::X], &[Id::Y], CallbackType::Client));
    let plan = executor.get_execution_plan(&set(&[Id::X]));
    assert!(plan.client_pre_plan.is_empty());
    assert!(plan.server_plan.is_empty());
    assert!(plan.client_post_plan.is_empty());
}

#[test]
fn required_args_are_all_inputs_of_the_plan() {
    let executor = chain();
    let full = vec![CallbackId(0), CallbackId(1), CallbackId(2)];
    assert_eq!(executor.get_required_args(&full), set(&[Id::X, Id::Y, Id::Z]));
    assert_eq!(executor.get_required_args(&vec![]), set(&[]));
}

#[test]
fn required_state_is_what_neither_update_nor_plan_provides() {
    let executor = chain();
    let tail = vec![CallbackId(1), CallbackId(2)];
    assert_eq!(executor.get_required_state(&vec![], &tail), set(&[Id::Y]));
    assert_eq!(executor.get_required_state(&vec![Id::Y], &tail), set(&[]));
    // Read before it is written in the plan: still required.
    let reversed = vec![CallbackId(2), CallbackId(1)];
    assert_eq!(executor.get_required_state(&vec![Id::X], &reversed), set(&[Id::Z, Id::Y]));
}

#[test]
fn initialization_needs_the_identifiers_that_nobody_writes() {
    let executor = chain();
    assert_eq!(executor.get_required_initialization_inputs(), set(&[Id::X]));
    let mut two_sources: Executor<Id, Body> = Executor::new();
    two_sources.register_callback(callback("sum", &[Id::X, Id::P], &[Id::Y], CallbackType::Client));
    two_sources.register_callback(callback("twice", &[Id::Y], &[Id::P], CallbackType::Client));
    assert_eq!(two_sources.get_required_initialization_inputs(), set(&[Id::X]));
}

#[test]
fn remote_callbacks_run_in_the_remote_phase_only() {
    let mut executor: Executor<Id, Body> = Executor::new();
    executor.register_callback(callback("first", &[Id::X], &[Id::Y], CallbackType::Server));
    executor.register_callback(callback("second", &[Id::Y], &[Id::Z], CallbackType::Server));
    executor.register_callback(callback("alone", &[Id::X], &[Id::V], CallbackType::Server));
    executor.register_callback(callback("tail", &[Id::Z, Id::V], &[Id::W], CallbackType::Client));
    executor.complete_registration();
    for update in [set(&[Id::X]), set(&[Id::Y]), set(&[Id::Z]), set(&[Id::X, Id::Z])] {
        let plan = executor.get_execution_plan(&update);
        for id in plan.client_pre_plan.iter().chain(plan.client_post_plan.iter()) {
            assert!(executor.callbacks_container.get_callback(id).cb_type == CallbackType::Client);
        }
    }
    let plan = executor.get_execution_plan(&set(&[Id::X]));
    let mut server = plan.server_plan.clone();
    server.sort_by_key(|id| id.0);
    assert_eq!(server, vec![CallbackId(0), CallbackId(1), CallbackId(2)]);
    assert_eq!(plan.client_post_plan, vec![CallbackId(3)]);
    // Reached through Z alone, nothing remote is in the plan.
    let plan = executor.get_execution_plan(&set(&[Id::Z]));
    assert_eq!(plan.client_pre_plan, vec![CallbackId(3)]);
    assert!(plan.server_plan.is_empty());
}

#[test]
fn init_callbacks_completes_registration() {
    let mut executor: Executor<Id, Body> = Executor::new();
    executor.register_callback(callback("f1", &[Id::X], &[Id::Y], CallbackType::Client));
    executor.register_callback(callback("f2", &[Id::Y], &[Id::Z], CallbackType::Client));
    assert!(!executor.callbacks_container.registration_completed());
    executor.init_callbacks();
    assert!(executor.callbacks_container.registration_completed());
    let plan = executor.get_execution_plan(&set(&[Id::X]));
    assert_eq!(plan.client_pre_plan, vec![CallbackId(0), CallbackId(1)]);
}
