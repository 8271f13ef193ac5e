use dust::{Callback, CallbackId, CallbackType, CallbacksContainer};
use std::collections::HashMap;

type Body = fn(&HashMap<u8, u32>) -> Vec<u32>;
type Registry = CallbacksContainer<u8, Body>;

fn callback(name: &'static str, inputs: &[u8], outputs: &[u8]) -> Callback<u8, Body> {
    Callback::new(name, None, inputs.to_vec(), outputs.to_vec(), CallbackType::Client)
}

fn ids(list: &[usize]) -> Vec<CallbackId> {
    list.iter().map(|i| CallbackId(*i)).collect()
}

fn diamond() -> CallbacksContainer<u8, Body> {
    // 0 writes 1; 1 and 2 read 1 and write 2 and 3; 3 reads 2 and 3.
    let mut c: CallbacksContainer<u8, Body> = CallbacksContainer::new();
    c.add_callback(callback("top", &[0], &[1]));
    c.add_callback(callback("left", &[1], &[2]));
    c.add_callback(callback("right", &[1], &[3]));
    c.add_callback(callback("bottom", &[2, 3], &[4]));
    c
}

#[test]
fn registration_assigns_ids_in_order() {
    let c = diamond();
    let all = c.all_callbacks();
    assert_eq!(all.len(), 4);
    for (i, entry) in all.iter().enumerate() {
        assert_eq!(entry.id, CallbackId(i));
    }
    assert_eq!(c.get_callback(&CallbackId(2)).name, "right");
    assert_eq!(c.get_callback_names(&ids(&[3, 0])), vec!["bottom", "top"]);
    assert!(!c.registration_completed());
}

#[test]
fn tables_are_empty_before_registration_is_complete() {
    let c = diamond();
    assert!(c.get_callbacks_with_input(&1).is_empty());
    assert!(c.get_dependents(&CallbackId(0)).is_empty());
    assert!(c.get_ancestors(&CallbackId(3)).is_empty());
    assert!(c.get_topological_order().is_empty());
}

#[test]
fn freeze_derives_dependents_and_ancestors() {
    let mut c = diamond();
    assert_eq!(c.try_complete_registration(), Ok(()));
    assert!(c.registration_completed());
    assert_eq!(c.get_callbacks_with_input(&1), &ids(&[1, 2]));
    assert_eq!(c.get_callbacks_with_input(&0), &ids(&[0]));
    assert!(c.get_callbacks_with_input(&9).is_empty());
    assert_eq!(c.get_dependents(&CallbackId(0)), &ids(&[1, 2]));
    assert_eq!(c.get_dependents(&CallbackId(1)), &ids(&[3]));
    assert!(c.get_dependents(&CallbackId(3)).is_empty());
    assert!(c.get_dependents(&CallbackId(17)).is_empty());
    assert_eq!(c.get_ancestors(&CallbackId(3)), &ids(&[1, 2]));
    assert_eq!(c.get_ancestors(&CallbackId(1)), &ids(&[0]));
    assert!(c.get_ancestors(&CallbackId(0)).is_empty());
}

#[test]
fn ranks_grow_along_every_dependency() {
    let mut c = diamond();
    c.complete_registration();
    let rank = |i: usize| c.get_topological_rank(&CallbackId(i));
    assert_eq!(rank(0), 0);
    assert_eq!(rank(3), 3);
    assert!(rank(0) < rank(1) && rank(0) < rank(2));
    assert!(rank(1) < rank(3) && rank(2) < rank(3));
    let mut seen: Vec<usize> = (0..4).map(rank).collect();
    seen.sort();
    assert_eq!(seen, vec![0, 1, 2, 3]);
    let order = c.get_topological_order();
    for (r, id) in order.iter().enumerate() {
        assert_eq!(c.get_topological_rank(id), r);
    }
}

#[test]
fn depth_first_order_puts_the_last_registered_root_first() {
    let mut c: CallbacksContainer<u8, Body> = CallbacksContainer::new();
    c.add_callback(callback("a", &[0], &[1]));
    c.add_callback(callback("b", &[1], &[2]));
    c.add_callback(callback("lonely", &[7], &[8]));
    c.complete_registration();
    assert_eq!(c.get_topological_order(), &ids(&[2, 0, 1]));
}

#[test]
fn callbacks_without_inputs_or_outputs_are_legal() {
    let mut c: CallbacksContainer<u8, Body> = CallbacksContainer::new();
    c.add_callback(callback("nothing", &[], &[]));
    c.add_callback(callback("producer_one", &[], &[1]));
    c.add_callback(callback("producer_two", &[], &[1]));
    c.add_callback(callback("consumer", &[1], &[]));
    assert_eq!(c.try_complete_registration(), Ok(()));
    assert_eq!(c.get_ancestors(&CallbackId(3)), &ids(&[1, 2]));
    assert!(c.get_dependents(&CallbackId(0)).is_empty());
    assert!(c.get_topological_rank(&CallbackId(1)) < c.get_topological_rank(&CallbackId(3)));
    assert!(c.get_topological_rank(&CallbackId(2)) < c.get_topological_rank(&CallbackId(3)));
}

#[test]
fn cycle_is_reported_as_a_closed_walk() {
    let mut c: CallbacksContainer<u8, Body> = CallbacksContainer::new();
    c.add_callback(callback("entry", &[0], &[1]));
    c.add_callback(callback("a", &[1, 3], &[2]));
    c.add_callback(callback("b", &[2], &[3]));
    let cycle = c.try_complete_registration().unwrap_err();
    assert_eq!(cycle, ids(&[1, 2, 1]));
    assert_eq!(c.get_callback_names(&cycle), vec!["a", "b", "a"]);
    assert_eq!(c.describe_path(&cycle), "a -> b -> a");
    assert!(!c.registration_completed());
    assert!(c.get_dependents(&CallbackId(0)).is_empty());
}

#[test]
fn callback_that_reads_what_it_writes_is_a_cycle() {
    let mut c: CallbacksContainer<u8, Body> = CallbacksContainer::new();
    c.add_callback(callback("selfish", &[1], &[1]));
    assert_eq!(c.try_complete_registration(), Err(ids(&[0, 0])));
}

#[test]
fn registry_stays_open_after_a_cycle() {
    let mut c: CallbacksContainer<u8, Body> = CallbacksContainer::new();
    c.add_callback(callback("a", &[1], &[2]));
    c.add_callback(callback("b", &[2], &[1]));
    assert!(c.try_complete_registration().is_err());
    c.add_callback(callback("c", &[5], &[6]));
    assert_eq!(c.all_callbacks().len(), 3);
}

#[test]
fn path_description_joins_names_with_arrows() {
    let c = diamond();
    assert_eq!(c.describe_path(&ids(&[])), "");
    assert_eq!(c.describe_path(&ids(&[2])), "right");
    assert_eq!(c.describe_path(&ids(&[0, 1, 3])), "top -> left -> bottom");
}

#[test]
fn lists_repeat_a_callback_for_every_declaration_that_links_it() {
    let mut c: Registry = CallbacksContainer::new();
    // Reads 1 twice; writes 2 and 3, which the next callback both reads.
    c.add_callback(callback("twice", &[1, 1], &[2, 3]));
    c.add_callback(callback("both", &[3, 2], &[4]));
    c.complete_registration();
    assert_eq!(c.get_callbacks_with_input(&1), &ids(&[0, 0]));
    assert_eq!(c.get_dependents(&CallbackId(0)), &ids(&[1, 1]));
    assert_eq!(c.get_ancestors(&CallbackId(1)), &ids(&[0, 0]));
    assert_eq!(c.get_topological_order(), &ids(&[0, 1]));
}

#[test]
fn rank_order_is_the_reverse_of_the_order_in_which_the_walk_leaves_callbacks() {
    // 0 -> 2 -> 3, 0 -> 1 -> 3, in that order of declaration.
    let mut c: Registry = CallbacksContainer::new();
    c.add_callback(callback("root", &[0], &[1, 2]));
    c.add_callback(callback("late", &[2], &[4]));
    c.add_callback(callback("early", &[1], &[3]));
    c.add_callback(callback("sink", &[3, 4], &[5]));
    c.complete_registration();
    assert_eq!(c.get_dependents(&CallbackId(0)), &ids(&[2, 1]));
    // The walk leaves 3, then 2, then 1, then 0.
    assert_eq!(c.get_topological_order(), &ids(&[0, 1, 2, 3]));
    assert_eq!(c.get_topological_rank(&CallbackId(2)), 2);
}

#[test]
fn registration_returns_the_new_id() {
    let mut c: Registry = CallbacksContainer::new();
    assert_eq!(c.add_callback(callback("a", &[1], &[2])), CallbackId(0));
    assert_eq!(c.add_callback(callback("b", &[2], &[3])), CallbackId(1));
    assert_eq!(c.get_callback(&CallbackId(1)).name, "b");
}
