use dust::graph::{build_ancestors, build_dependents, build_input_index, ranks_from_order};
use dust::toposort::{reversed, topological_order};
use dust::{Callback, CallbackId, CallbackType, CallbackWithId};
use std::collections::HashMap;

type Body = fn(&HashMap<u8, u32>) -> Vec<u32>;

fn ids(list: &[usize]) -> Vec<CallbackId> {
    list.iter().map(|i| CallbackId(*i)).collect()
}

fn adjacency(lists: &[&[usize]]) -> Vec<Vec<CallbackId>> {
    lists.iter().map(|l| ids(l)).collect()
}

fn entries(declared: &[(&[u8], &[u8])]) -> Vec<CallbackWithId<u8, Body>> {
    declared
        .iter()
        .enumerate()
        .map(|(i, (inputs, outputs))| CallbackWithId {
            id: CallbackId(i),
            callback: Callback::new("c", None, inputs.to_vec(), outputs.to_vec(), CallbackType::Client),
        })
        .collect()
}

#[test]
fn sorter_puts_every_node_before_the_nodes_it_points_to() {
    // 0 -> 1 -> 3, 0 -> 2 -> 3, 4 alone
    let adj = adjacency(&[&[1, 2], &[3], &[3], &[], &[]]);
    assert_eq!(topological_order(&adj), Ok(ids(&[4, 0, 2, 1, 3])));
    assert_eq!(topological_order(&adjacency(&[])), Ok(ids(&[])));
    assert_eq!(topological_order(&adjacency(&[&[]])), Ok(ids(&[0])));
}

#[test]
fn sorter_reports_the_cycle_it_runs_into() {
    // 0 -> 1 -> 2 -> 3 -> 1
    let adj = adjacency(&[&[1], &[2], &[3], &[1]]);
    assert_eq!(topological_order(&adj), Err(ids(&[1, 2, 3, 1])));
    assert_eq!(topological_order(&adjacency(&[&[0]])), Err(ids(&[0, 0])));
    // A cycle behind an acyclic part that was finished first.
    let adj = adjacency(&[&[], &[0, 2], &[1]]);
    assert_eq!(topological_order(&adj), Err(ids(&[1, 2, 1])));
}

#[test]
fn reversed_list_runs_from_last_to_first() {
    assert_eq!(reversed(&ids(&[3, 1, 2])), ids(&[2, 1, 3]));
    assert_eq!(reversed(&ids(&[])), ids(&[]));
}

#[test]
fn ranks_are_positions_in_the_order() {
    assert_eq!(ranks_from_order(&ids(&[2, 0, 1])), vec![1, 2, 0]);
    assert_eq!(ranks_from_order(&ids(&[])), Vec::<usize>::new());
}

#[test]
fn tables_follow_the_declarations() {
    let callbacks = entries(&[(&[1], &[2, 3]), (&[2, 3], &[4]), (&[3], &[])]);
    let index = build_input_index(&callbacks);
    assert_eq!(index.len(), 3);
    assert_eq!(index[&1], ids(&[0]));
    assert_eq!(index[&2], ids(&[1]));
    assert_eq!(index[&3], ids(&[1, 2]));
    let dependents = build_dependents(&callbacks, &index);
    assert_eq!(dependents, adjacency(&[&[1, 1, 2], &[], &[]]));
    let ancestors = build_ancestors(&dependents);
    assert_eq!(ancestors, adjacency(&[&[], &[0, 0], &[0]]));
}
