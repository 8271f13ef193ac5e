// Compares the library with a small model of the scheduler, written with
// plain recursion, maps and a sort, on registrations drawn from a fixed
// pseudo-random sequence.

use dust::{Callback, CallbackId, CallbackType, Executor};
use std::collections::{HashMap, HashSet};

type Body = fn(&HashMap<u8, u32>) -> Vec<u32>;

#[derive(Clone, Debug)]
struct Declared {
    inputs: Vec<u8>,
    outputs: Vec<u8>,
    remote: bool,
}

struct Sequence(u64);

impl Sequence {
    fn next(&mut self, below: u64) -> u64 {
        self.0 = self.0.wrapping_mul(6364136223846793005).wrapping_add(1442695040888963407);
        (self.0 >> 33) % below
    }
}

struct Model {
    declared: Vec<Declared>,
    readers: HashMap<u8, Vec<usize>>,
    dependents: Vec<Vec<usize>>,
    ancestors: Vec<Vec<usize>>,
}

impl Model {
    fn new(declared: Vec<Declared>) -> Model {
        let mut readers: HashMap<u8, Vec<usize>> = HashMap::new();
        for (id, c) in declared.iter().enumerate() {
            for input in c.inputs.iter() {
                readers.entry(*input).or_default().push(id);
            }
        }
        let mut dependents = vec![Vec::new(); declared.len()];
        let mut ancestors = vec![Vec::new(); declared.len()];
        for (id, c) in declared.iter().enumerate() {
            for output in c.outputs.iter() {
                for dep in readers.get(output).into_iter().flatten() {
                    dependents[id].push(*dep);
                    ancestors[*dep].push(id);
                }
            }
        }
        Model { declared, readers, dependents, ancestors }
    }

    fn visit(
        &self,
        id: usize,
        in_progress: &mut HashSet<usize>,
        done: &mut HashSet<usize>,
        cycle: &mut Vec<usize>,
        order: &mut Vec<usize>,
    ) -> bool {
        if done.contains(&id) {
            return false;
        }
        if in_progress.contains(&id) {
            cycle.push(id);
            return true;
        }
        in_progress.insert(id);
        for dep in self.dependents[id].iter() {
            if self.visit(*dep, in_progress, done, cycle, order) {
                if cycle.len() == 1 || cycle.first() != cycle.last() {
                    cycle.push(id);
                }
                return true;
            }
        }
        in_progress.remove(&id);
        done.insert(id);
        order.push(id);
        false
    }

    // The callbacks by rank, or the cycle in the direction of the dependencies.
    fn order(&self) -> Result<Vec<usize>, Vec<usize>> {
        let mut in_progress = HashSet::new();
        let mut done = HashSet::new();
        let mut cycle = Vec::new();
        let mut order = Vec::new();
        for id in 0..self.declared.len() {
            if !done.contains(&id)
                && self.visit(id, &mut in_progress, &mut done, &mut cycle, &mut order)
            {
                cycle.reverse();
                return Err(cycle);
            }
        }
        order.reverse();
        Ok(order)
    }

    fn reach(&self, id: usize, seen: &mut HashSet<usize>, plan: &mut Vec<usize>) {
        if seen.insert(id) {
            plan.push(id);
            for dep in self.dependents[id].iter() {
                self.reach(*dep, seen, plan);
            }
        }
    }

    fn local_along(&self, id: usize, in_plan: &HashSet<usize>, upstream: bool) -> bool {
        if self.declared[id].remote {
            return false;
        }
        let next = if upstream { &self.ancestors[id] } else { &self.dependents[id] };
        next.iter().filter(|n| in_plan.contains(n)).all(|n| self.local_along(*n, in_plan, upstream))
    }

    fn plan(&self, rank: &HashMap<usize, usize>, updated: &HashSet<u8>) -> [Vec<usize>; 3] {
        let mut seen = HashSet::new();
        let mut full = Vec::new();
        for x in updated.iter() {
            for id in self.readers.get(x).into_iter().flatten() {
                self.reach(*id, &mut seen, &mut full);
            }
        }
        full.sort_by_key(|id| rank[id]);
        let mut phases = [Vec::new(), Vec::new(), Vec::new()];
        for id in full {
            let phase = if self.declared[id].remote {
                1
            } else if self.local_along(id, &seen, true) {
                0
            } else if self.local_along(id, &seen, false) {
                2
            } else {
                1
            };
            phases[phase].push(id);
        }
        phases
    }

    fn required_state(&self, updated: &Vec<u8>, plan: &Vec<usize>) -> HashSet<u8> {
        let mut available: HashSet<u8> = updated.iter().copied().collect();
        let mut required = HashSet::new();
        for id in plan.iter() {
            for input in self.declared[*id].inputs.iter() {
                if !available.contains(input) {
                    required.insert(*input);
                }
            }
            available.extend(self.declared[*id].outputs.iter().copied());
        }
        required
    }
}

fn draw(sequence: &mut Sequence, layered: bool) -> Vec<Declared> {
    let count = sequence.next(9) as usize;
    let mut declared = Vec::new();
    for _ in 0..count {
        let pivot = 1 + sequence.next(6) as u8;
        let mut inputs = Vec::new();
        let mut outputs = Vec::new();
        for _ in 0..sequence.next(4) {
            inputs.push(if layered { sequence.next(pivot as u64) as u8 } else { sequence.next(7) as u8 });
        }
        for _ in 0..sequence.next(3) {
            outputs.push(if layered {
                pivot + sequence.next((7 - pivot) as u64 + 1) as u8
            } else {
                sequence.next(7) as u8
            });
        }
        declared.push(Declared { inputs, outputs, remote: sequence.next(3) == 0 });
    }
    declared
}

fn library(declared: &Vec<Declared>) -> Executor<u8, Body> {
    let mut executor: Executor<u8, Body> = Executor::new();
    for c in declared.iter() {
        executor.register_callback(Callback::new(
            "c",
            None,
            c.inputs.clone(),
            c.outputs.clone(),
            if c.remote { CallbackType::Server } else { CallbackType::Client },
        ));
    }
    executor
}

fn indexes(ids: &Vec<CallbackId>) -> Vec<usize> {
    ids.iter().map(|id| id.0).collect()
}

fn compare(declared: Vec<Declared>, sequence: &mut Sequence) -> bool {
    let model = Model::new(declared.clone());
    let mut executor = library(&declared);
    let frozen = executor.try_complete_registration();
    let order = match (model.order(), frozen) {
        (Ok(order), Ok(())) => order,
        (Err(cycle), Err(found)) => {
            assert_eq!(indexes(&found), cycle, "{:?}", declared);
            assert!(cycle.len() >= 2 && cycle.first() == cycle.last());
            for pair in cycle.windows(2) {
                assert!(model.dependents[pair[0]].contains(&pair[1]));
            }
            return false;
        }
        (expected, found) => panic!("{:?}: {:?} but {:?}", declared, expected, found),
    };
    let c = &executor.callbacks_container;
    assert_eq!(indexes(c.get_topological_order()), order, "{:?}", declared);
    let rank: HashMap<usize, usize> = order.iter().enumerate().map(|(r, id)| (*id, r)).collect();
    for id in 0..declared.len() {
        assert_eq!(c.get_topological_rank(&CallbackId(id)), rank[&id]);
        assert_eq!(indexes(c.get_dependents(&CallbackId(id))), model.dependents[id]);
        assert_eq!(indexes(c.get_ancestors(&CallbackId(id))), model.ancestors[id]);
        for dep in model.dependents[id].iter() {
            assert!(rank[&id] < rank[dep]);
        }
    }
    for _ in 0..6 {
        let updated: HashSet<u8> = (0..sequence.next(4)).map(|_| sequence.next(8) as u8).collect();
        let plan = executor.get_execution_plan(&updated);
        let expected = model.plan(&rank, &updated);
        let found =
            [indexes(&plan.client_pre_plan), indexes(&plan.server_plan), indexes(&plan.client_post_plan)];
        assert_eq!(found, expected, "{:?} updated {:?}", declared, updated);
        for id in found[0].iter().chain(found[2].iter()) {
            assert!(!declared[*id].remote);
        }
        let mut full: Vec<usize> = found.concat();
        full.sort_by_key(|id| rank[id]);
        let listed: Vec<u8> = updated.iter().copied().collect();
        let ids: Vec<CallbackId> = full.iter().map(|id| CallbackId(*id)).collect();
        let required = executor.get_required_state(&listed, &ids);
        assert_eq!(required, model.required_state(&listed, &full));
        assert!(required.iter().all(|x| !updated.contains(x)));
        let args: HashSet<u8> =
            full.iter().flat_map(|id| declared[*id].inputs.iter().copied()).collect();
        assert_eq!(executor.get_required_args(&ids), args);
    }
    true
}

#[test]
fn library_agrees_with_the_model_on_layered_registrations() {
    let mut sequence = Sequence(7);
    let mut frozen = 0;
    for _ in 0..400 {
        let declared = draw(&mut sequence, true);
        if compare(declared, &mut sequence) {
            frozen += 1;
        }
    }
    assert_eq!(frozen, 400);
}

#[test]
fn library_agrees_with_the_model_on_arbitrary_registrations() {
    let mut sequence = Sequence(11);
    let mut frozen = 0;
    let mut cyclic = 0;
    for _ in 0..600 {
        let declared = draw(&mut sequence, false);
        if compare(declared, &mut sequence) {
            frozen += 1;
        } else {
            cyclic += 1;
        }
    }
    assert!(frozen > 50 && cyclic > 50, "{} frozen, {} cyclic", frozen, cyclic);
}
