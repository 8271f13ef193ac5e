//! Computing an execution plan: which callbacks an update reaches, and the
//! phase of each, in one pass over the callbacks by rank.

use vstd::prelude::*;
use std::collections::HashSet;
use std::hash::Hash;
use vstd::std_specs::iter::IteratorSpec;
use crate::callback::{CallbackId, CallbackType};
use crate::plan;
use crate::plan::{ExecutionPlan, Phase};
use crate::registry::CallbacksContainer;
use crate::toposort;
use crate::toposort::Mark;

verus! {

/// The members of `set`, each once, in the order in which the set hands
/// them out.
pub fn identifiers_of<I: Hash + Eq + Copy>(set: &HashSet<I>) -> (list: Vec<I>)
    requires
        vstd::std_specs::hash::obeys_key_model::<I>(),
    ensures
        list@.no_duplicates(),
        forall|x: I| #[trigger] list@.contains(x) <==> set@.contains(x),
{
    let mut list: Vec<I> = Vec::new();
    for x in it: set.iter()
        invariant
            list@.len() == it.index(),
            forall|j: int| 0 <= j < list@.len() ==> list@[j] == *it.seq()[j],
    {
        list.push(*x);
    }
    proof {
        let handed = set.iter().remaining().unref();
        assert(list@ =~= handed);
        assert(handed.to_set() == set@);
        assert forall|x: I| #[trigger] list@.contains(x) <==> set@.contains(x) by {
            assert(handed.to_set().contains(x) <==> handed.contains(x));
        }
    }
    list
}

/// The callbacks marked so far are callbacks that must run, and the
/// worklist holds each of them.
pub open spec fn reach_inv<I, F>(
    c: &CallbacksContainer<I, F>,
    updated: Set<I>,
    marks: Seq<Mark>,
    worklist: Seq<CallbackId>,
) -> bool {
    &&& marks.len() == c.len()
    &&& worklist.len() + toposort::count_of(marks, Mark::Unvisited) == marks.len()
    &&& forall|i: int|
        0 <= i < worklist.len() ==> c.contains(#[trigger] worklist[i]) && marks[worklist[i].0 as int]
            != Mark::Unvisited
    &&& forall|id: CallbackId|
        c.contains(id) && #[trigger] marks[id.0 as int] != Mark::Unvisited ==> worklist.contains(
            id,
        ) && plan::must_run(c, updated, id)
}

/// Marks `id` as reached and queues it, unless it is marked already.
fn enqueue<I, F>(
    c: &CallbacksContainer<I, F>,
    marks: &mut Vec<Mark>,
    worklist: &mut Vec<CallbackId>,
    id: CallbackId,
    Ghost(updated): Ghost<Set<I>>,
)
    requires
        reach_inv(c, updated, old(marks)@, old(worklist)@),
        c.contains(id),
        plan::must_run(c, updated, id),
    ensures
        reach_inv(c, updated, final(marks)@, final(worklist)@),
        final(marks)@[id.0 as int] != Mark::Unvisited,
        forall|v: CallbackId|
            c.contains(v) && old(marks)@[v.0 as int] != Mark::Unvisited
                ==> #[trigger] final(marks)@[v.0 as int] != Mark::Unvisited,
        final(worklist)@.len() >= old(worklist)@.len(),
        forall|i: int|
            0 <= i < old(worklist)@.len() ==> #[trigger] final(worklist)@[i] == old(worklist)@[i],
{
    if marks[id.0] == Mark::Unvisited {
        proof {
            toposort::lemma_count_update(marks@, id.0 as int, Mark::Done, Mark::Unvisited);
        }
        let ghost marks_before = marks@;
        let ghost list_before = worklist@;
        marks[id.0] = Mark::Done;
        worklist.push(id);
        proof {
            assert(worklist@[list_before.len() as int] == id);
            assert forall|v: CallbackId|
                c.contains(v) && #[trigger] marks@[v.0 as int]
                    != Mark::Unvisited implies worklist@.contains(v) && plan::must_run(
                c,
                updated,
                v,
            ) by {
                if v.0 == id.0 {
                    assert(worklist@[list_before.len() as int] == v);
                } else {
                    assert(marks_before[v.0 as int] != Mark::Unvisited);
                    assert(list_before.contains(v));
                    let k = choose|k: int| 0 <= k < list_before.len() && list_before[k] == v;
                    assert(worklist@[k] == v);
                }
            }
            assert forall|i: int| 0 <= i < worklist@.len() implies c.contains(
                #[trigger] worklist@[i],
            ) && marks@[worklist@[i].0 as int] != Mark::Unvisited by {
                if i < list_before.len() {
                    assert(worklist@[i] == list_before[i]);
                }
            }
        }
    }
}

/// Finds the callbacks that must run after an update of `seeds`: those that
/// read one of them, and all that depend on those.
fn reach<I: Hash + Eq + Copy, F>(
    c: &CallbacksContainer<I, F>,
    seeds: &Vec<I>,
    Ghost(updated): Ghost<Set<I>>,
) -> (marks: Vec<Mark>)
    requires
        c.wf(),
        c.is_frozen(),
        forall|x: I| #[trigger] seeds@.contains(x) <==> updated.contains(x),
    ensures
        marks@.len() == c.len(),
        forall|id: CallbackId|
            c.contains(id) ==> (#[trigger] marks@[id.0 as int] != Mark::Unvisited <==> plan::must_run(
                c,
                updated,
                id,
            )),
{
    let n = c.all_callbacks().len();
    let mut marks: Vec<Mark> = Vec::new();
    let mut i: usize = 0;
    while i < n
        invariant
            0 <= i <= n,
            marks@.len() == i,
            forall|k: int| 0 <= k < i ==> marks@[k] == Mark::Unvisited,
        decreases n - i,
    {
        marks.push(Mark::Unvisited);
        i += 1;
    }
    let mut worklist: Vec<CallbackId> = Vec::new();
    proof {
        toposort::lemma_count_all(marks@, Mark::Unvisited);
    }
    let n_seeds = seeds.len();
    let mut k: usize = 0;
    while k < n_seeds
        invariant
            c.wf(),
            c.is_frozen(),
            n == c.len(),
            n_seeds == seeds@.len(),
            0 <= k <= n_seeds,
            forall|x: I| #[trigger] seeds@.contains(x) <==> updated.contains(x),
            reach_inv(c, updated, marks@, worklist@),
            forall|id: CallbackId, j: int|
                0 <= j < k && #[trigger] c.is_triggered_by(id, seeds@[j]) ==> marks@[id.0 as int]
                    != Mark::Unvisited,
        decreases n_seeds - k,
    {
        let x = seeds[k];
        assert(seeds@.contains(seeds@[k as int]));
        let ids = c.get_callbacks_with_input(&x);
        let len = ids.len();
        let mut t: usize = 0;
        while t < len
            invariant
                c.wf(),
                c.is_frozen(),
                n == c.len(),
                0 <= k < n_seeds,
                n_seeds == seeds@.len(),
                x == seeds@[k as int],
                updated.contains(x),
                len == ids@.len(),
                0 <= t <= len,
                forall|id: CallbackId| #[trigger] ids@.contains(id) <==> c.is_triggered_by(id, x),
                reach_inv(c, updated, marks@, worklist@),
                forall|id: CallbackId, j: int|
                    0 <= j < k && #[trigger] c.is_triggered_by(id, seeds@[j])
                        ==> marks@[id.0 as int] != Mark::Unvisited,
                forall|j: int| 0 <= j < t ==> marks@[(#[trigger] ids@[j]).0 as int] != Mark::Unvisited,
            decreases len - t,
        {
            let id = ids[t];
            proof {
                assert(ids@.contains(ids@[t as int]));
                assert(c.is_triggered_by(id, x));
                assert(plan::is_seed(c, updated, id));
                plan::lemma_seed_must_run(c, updated, id);
                assert forall|j: int| 0 <= j < t implies c.contains(#[trigger] ids@[j]) by {
                    assert(ids@.contains(ids@[j]));
                    assert(c.is_triggered_by(ids@[j], x));
                }
            }
            enqueue(c, &mut marks, &mut worklist, id, Ghost(updated));
            t += 1;
        }
        proof {
            assert forall|id: CallbackId, j: int|
                0 <= j < k + 1 && #[trigger] c.is_triggered_by(id, seeds@[j]) implies marks@[id.0 as int]
                != Mark::Unvisited by {
                if j == k {
                    assert(ids@.contains(id));
                    let p = choose|p: int| 0 <= p < ids@.len() && ids@[p] == id;
                    assert(marks@[ids@[p].0 as int] != Mark::Unvisited);
                }
            }
        }
        k += 1;
    }
    let mut head: usize = 0;
    proof {
        toposort::lemma_count_bounded(marks@, Mark::Unvisited);
    }
    while head < worklist.len()
        invariant
            c.wf(),
            c.is_frozen(),
            n == c.len(),
            k == seeds@.len(),
            0 <= head <= worklist@.len(),
            reach_inv(c, updated, marks@, worklist@),
            forall|id: CallbackId, j: int|
                0 <= j < k && #[trigger] c.is_triggered_by(id, seeds@[j]) ==> marks@[id.0 as int]
                    != Mark::Unvisited,
            forall|i: int, v: CallbackId|
                0 <= i < head && #[trigger] c.depends_on(worklist@[i], v) ==> marks@[v.0 as int]
                    != Mark::Unvisited,
        decreases n - head,
    {
        let u = worklist[head];
        assert(c.contains(worklist@[head as int]));
        let deps = c.get_dependents(&u);
        let len = deps.len();
        let mut t: usize = 0;
        while t < len
            invariant
                c.wf(),
                c.is_frozen(),
                n == c.len(),
                k == seeds@.len(),
                0 <= head < worklist@.len(),
                u == worklist@[head as int],
                c.contains(u),
                plan::must_run(c, updated, u),
                len == deps@.len(),
                0 <= t <= len,
                forall|v: CallbackId| #[trigger] deps@.contains(v) <==> c.depends_on(u, v),
                reach_inv(c, updated, marks@, worklist@),
                forall|id: CallbackId, j: int|
                    0 <= j < k && #[trigger] c.is_triggered_by(id, seeds@[j])
                        ==> marks@[id.0 as int] != Mark::Unvisited,
                forall|i: int, v: CallbackId|
                    0 <= i < head && #[trigger] c.depends_on(worklist@[i], v)
                        ==> marks@[v.0 as int] != Mark::Unvisited,
                forall|j: int|
                    0 <= j < t ==> marks@[(#[trigger] deps@[j]).0 as int] != Mark::Unvisited,
            decreases len - t,
        {
            let v = deps[t];
            proof {
                assert(deps@.contains(deps@[t as int]));
                assert(c.depends_on(u, v));
                plan::lemma_dependent_must_run(c, updated, u, v);
                assert forall|j: int| 0 <= j < t implies c.contains(#[trigger] deps@[j]) by {
                    assert(deps@.contains(deps@[j]));
                    assert(c.depends_on(u, deps@[j]));
                }
                assert forall|i: int, w: CallbackId|
                    0 <= i < head && #[trigger] c.depends_on(worklist@[i], w) implies c.contains(
                    w,
                ) by {}
            }
            enqueue(c, &mut marks, &mut worklist, v, Ghost(updated));
            t += 1;
        }
        proof {
            assert forall|i: int, v: CallbackId|
                0 <= i < head + 1 && #[trigger] c.depends_on(worklist@[i], v) implies marks@[v.0 as int]
                != Mark::Unvisited by {
                if i == head {
                    assert(deps@.contains(v));
                    let p = choose|p: int| 0 <= p < deps@.len() && deps@[p] == v;
                    assert(marks@[deps@[p].0 as int] != Mark::Unvisited);
                }
            }
            toposort::lemma_count_bounded(marks@, Mark::Unvisited);
        }
        head += 1;
    }
    proof {
        let reached = Set::new(
            |id: CallbackId| c.contains(id) && marks@[id.0 as int] != Mark::Unvisited,
        );
        assert forall|s: CallbackId| plan::is_seed(c, updated, s) implies reached.contains(s) by {
            let x = choose|x: I| updated.contains(x) && #[trigger] c.is_triggered_by(s, x);
            assert(seeds@.contains(x));
            let j = choose|j: int| 0 <= j < seeds@.len() && seeds@[j] == x;
            assert(c.is_triggered_by(s, seeds@[j]));
        }
        assert forall|u: CallbackId, v: CallbackId|
            reached.contains(u) && #[trigger] c.depends_on(u, v) implies reached.contains(v) by {
            assert(worklist@.contains(u));
            let i = choose|i: int| 0 <= i < worklist@.len() && worklist@[i] == u;
            assert(c.depends_on(worklist@[i], v));
        }
        assert forall|id: CallbackId| c.contains(id) implies (#[trigger] marks@[id.0 as int]
            != Mark::Unvisited <==> plan::must_run(c, updated, id)) by {
            if plan::must_run(c, updated, id) {
                plan::lemma_closed_set_is_complete(c, updated, reached, id);
            }
        }
    }
    marks
}

/// `marks` tells which callbacks must run.
pub open spec fn marks_the_plan<I, F>(
    c: &CallbacksContainer<I, F>,
    updated: Set<I>,
    marks: Seq<Mark>,
) -> bool {
    &&& marks.len() == c.len()
    &&& forall|id: CallbackId|
        c.contains(id) ==> (#[trigger] marks[id.0 as int] != Mark::Unvisited <==> plan::must_run(
            c,
            updated,
            id,
        ))
}

/// Tells, for each callback that must run, whether neither it nor anything
/// in the plan that it depends on is remote. Goes through the callbacks by
/// growing rank, so that each callback finds the answer for the callbacks
/// it depends on.
fn upstream_flags<I, F>(
    c: &CallbacksContainer<I, F>,
    marks: &Vec<Mark>,
    Ghost(updated): Ghost<Set<I>>,
) -> (flags: Vec<bool>)
    requires
        c.wf(),
        c.is_frozen(),
        marks_the_plan(c, updated, marks@),
    ensures
        flags@.len() == c.len(),
        forall|id: CallbackId|
            c.contains(id) && plan::must_run(c, updated, id) ==> (#[trigger] flags@[id.0 as int]
                <==> plan::upstream_local(c, updated, id)),
{
    let order = c.get_topological_order();
    let n = order.len();
    let mut flags: Vec<bool> = Vec::new();
    let mut i: usize = 0;
    while i < n
        invariant
            0 <= i <= n,
            flags@.len() == i,
        decreases n - i,
    {
        flags.push(false);
        i += 1;
    }
    proof {
        c.lemma_ranks_are_topological();
    }
    let mut r: usize = 0;
    while r < n
        invariant
            c.wf(),
            c.is_frozen(),
            c.ranks_are_topological(),
            marks_the_plan(c, updated, marks@),
            c.is_rank_order(order@),
            n == c.len(),
            flags@.len() == n,
            0 <= r <= n,
            forall|id: CallbackId|
                c.contains(id) && c.rank_of(id) < r && plan::must_run(c, updated, id) ==> (
                #[trigger] flags@[id.0 as int] <==> plan::upstream_local(c, updated, id)),
        decreases n - r,
    {
        let id = order[r];
        assert(c.contains(order@[r as int]) && c.rank_of(order@[r as int]) == r);
        if marks[id.0] != Mark::Unvisited {
            let mut ok = c.get_callback(&id).cb_type != CallbackType::Server;
            let ancestors = c.get_ancestors(&id);
            let len = ancestors.len();
            let mut t: usize = 0;
            while t < len
                invariant
                    c.wf(),
                    c.is_frozen(),
                    c.ranks_are_topological(),
                    marks_the_plan(c, updated, marks@),
                    n == c.len(),
                    flags@.len() == n,
                    0 <= r < n,
                    c.contains(id),
                    c.rank_of(id) == r,
                    len == ancestors@.len(),
                    0 <= t <= len,
                    forall|a: CallbackId| #[trigger] ancestors@.contains(a) <==> c.depends_on(a, id),
                    forall|v: CallbackId|
                        c.contains(v) && c.rank_of(v) < r && plan::must_run(c, updated, v) ==> (
                        #[trigger] flags@[v.0 as int] <==> plan::upstream_local(c, updated, v)),
                    ok <==> (!c.callback(id).is_remote() && forall|j: int|
                        0 <= j < t && plan::must_run(c, updated, #[trigger] ancestors@[j])
                            ==> plan::upstream_local(c, updated, ancestors@[j])),
                decreases len - t,
            {
                let a = ancestors[t];
                proof {
                    assert(ancestors@.contains(ancestors@[t as int]));
                    assert(c.depends_on(a, id));
                    assert(c.contains(a) && c.rank_of(a) < r);
                }
                if marks[a.0] != Mark::Unvisited && !flags[a.0] {
                    ok = false;
                }
                t += 1;
            }
            proof {
                plan::lemma_upstream_step(c, updated, id);
                if ok {
                    assert forall|a: CallbackId|
                        plan::must_run(c, updated, a) && #[trigger] c.depends_on(
                            a,
                            id,
                        ) implies plan::upstream_local(c, updated, a) by {
                        assert(ancestors@.contains(a));
                        let j = choose|j: int| 0 <= j < ancestors@.len() && ancestors@[j] == a;
                        assert(plan::must_run(c, updated, ancestors@[j]));
                    }
                } else if !c.callback(id).is_remote() {
                    let j = choose|j: int|
                        0 <= j < t && plan::must_run(c, updated, #[trigger] ancestors@[j])
                            && !plan::upstream_local(c, updated, ancestors@[j]);
                    assert(ancestors@.contains(ancestors@[j]));
                    assert(c.depends_on(ancestors@[j], id));
                }
                assert(ok <==> plan::upstream_local(c, updated, id));
            }
            let ghost before = flags@;
            flags[id.0] = ok;
            proof {
                assert forall|v: CallbackId|
                    c.contains(v) && c.rank_of(v) < r + 1 && plan::must_run(c, updated, v) implies (
                #[trigger] flags@[v.0 as int] <==> plan::upstream_local(c, updated, v)) by {
                    if v != id {
                        assert(c.rank_of(v) != c.rank_of(id));
                        assert(flags@[v.0 as int] == before[v.0 as int]);
                    }
                }
            }
        } else {
            proof {
                assert forall|v: CallbackId|
                    c.contains(v) && c.rank_of(v) < r + 1 && plan::must_run(c, updated, v) implies (
                #[trigger] flags@[v.0 as int] <==> plan::upstream_local(c, updated, v)) by {
                    if v != id {
                        assert(c.rank_of(v) != c.rank_of(id));
                    }
                }
            }
        }
        r += 1;
    }
    flags
}

/// Tells, for each callback that must run, whether neither it nor anything
/// that depends on it is remote. Goes through the callbacks by falling rank,
/// so that each callback finds the answer for its dependents.
fn downstream_flags<I, F>(
    c: &CallbacksContainer<I, F>,
    marks: &Vec<Mark>,
    Ghost(updated): Ghost<Set<I>>,
) -> (flags: Vec<bool>)
    requires
        c.wf(),
        c.is_frozen(),
        marks_the_plan(c, updated, marks@),
    ensures
        flags@.len() == c.len(),
        forall|id: CallbackId|
            c.contains(id) && plan::must_run(c, updated, id) ==> (#[trigger] flags@[id.0 as int]
                <==> plan::downstream_local(c, updated, id)),
{
    let order = c.get_topological_order();
    let n = order.len();
    let mut flags: Vec<bool> = Vec::new();
    let mut i: usize = 0;
    while i < n
        invariant
            0 <= i <= n,
            flags@.len() == i,
        decreases n - i,
    {
        flags.push(false);
        i += 1;
    }
    proof {
        c.lemma_ranks_are_topological();
    }
    let mut r: usize = n;
    while r > 0
        invariant
            c.wf(),
            c.is_frozen(),
            c.ranks_are_topological(),
            marks_the_plan(c, updated, marks@),
            c.is_rank_order(order@),
            n == c.len(),
            flags@.len() == n,
            0 <= r <= n,
            forall|id: CallbackId|
                c.contains(id) && c.rank_of(id) >= r && plan::must_run(c, updated, id) ==> (
                #[trigger] flags@[id.0 as int] <==> plan::downstream_local(c, updated, id)),
        decreases r,
    {
        r -= 1;
        let id = order[r];
        assert(c.contains(order@[r as int]) && c.rank_of(order@[r as int]) == r);
        if marks[id.0] != Mark::Unvisited {
            let mut ok = c.get_callback(&id).cb_type != CallbackType::Server;
            let dependents = c.get_dependents(&id);
            let len = dependents.len();
            let mut t: usize = 0;
            while t < len
                invariant
                    c.wf(),
                    c.is_frozen(),
                    c.ranks_are_topological(),
                    marks_the_plan(c, updated, marks@),
                    n == c.len(),
                    flags@.len() == n,
                    0 <= r < n,
                    c.contains(id),
                    c.rank_of(id) == r,
                    plan::must_run(c, updated, id),
                    len == dependents@.len(),
                    0 <= t <= len,
                    forall|d: CallbackId| #[trigger] dependents@.contains(d) <==> c.depends_on(id, d),
                    forall|v: CallbackId|
                        c.contains(v) && c.rank_of(v) > r && plan::must_run(c, updated, v) ==> (
                        #[trigger] flags@[v.0 as int] <==> plan::downstream_local(c, updated, v)),
                    ok <==> (!c.callback(id).is_remote() && forall|j: int|
                        0 <= j < t ==> plan::downstream_local(c, updated, #[trigger] dependents@[j])),
                decreases len - t,
            {
                let d = dependents[t];
                proof {
                    assert(dependents@.contains(dependents@[t as int]));
                    assert(c.depends_on(id, d));
                    plan::lemma_dependent_must_run(c, updated, id, d);
                    assert(c.contains(d) && c.rank_of(d) > r);
                }
                if !flags[d.0] {
                    ok = false;
                }
                t += 1;
            }
            proof {
                plan::lemma_downstream_step(c, updated, id);
                if ok {
                    assert forall|d: CallbackId| #[trigger]
                        c.depends_on(id, d) implies plan::downstream_local(c, updated, d) by {
                        assert(dependents@.contains(d));
                        let j = choose|j: int| 0 <= j < dependents@.len() && dependents@[j] == d;
                        assert(plan::downstream_local(c, updated, dependents@[j]));
                    }
                } else if !c.callback(id).is_remote() {
                    let j = choose|j: int|
                        0 <= j < t && !plan::downstream_local(c, updated, #[trigger] dependents@[j]);
                    assert(dependents@.contains(dependents@[j]));
                    assert(c.depends_on(id, dependents@[j]));
                }
                assert(ok <==> plan::downstream_local(c, updated, id));
            }
            let ghost before = flags@;
            flags[id.0] = ok;
            proof {
                assert forall|v: CallbackId|
                    c.contains(v) && c.rank_of(v) >= r && plan::must_run(c, updated, v) implies (
                #[trigger] flags@[v.0 as int] <==> plan::downstream_local(c, updated, v)) by {
                    if v != id {
                        assert(c.rank_of(v) != c.rank_of(id));
                        assert(flags@[v.0 as int] == before[v.0 as int]);
                    }
                }
            }
        } else {
            proof {
                assert forall|v: CallbackId|
                    c.contains(v) && c.rank_of(v) >= r && plan::must_run(c, updated, v) implies (
                #[trigger] flags@[v.0 as int] <==> plan::downstream_local(c, updated, v)) by {
                    if v != id {
                        assert(c.rank_of(v) != c.rank_of(id));
                    }
                }
            }
        }
    }
    flags
}

/// `ids` holds, by growing rank, exactly the callbacks of rank below `r`
/// that must run in `phase`.
pub open spec fn is_phase_below<I, F>(
    c: &CallbacksContainer<I, F>,
    updated: Set<I>,
    ids: Seq<CallbackId>,
    phase: Phase,
    r: int,
) -> bool {
    &&& plan::rank_sorted(c, ids)
    &&& forall|id: CallbackId| #[trigger]
        ids.contains(id) <==> (c.contains(id) && c.rank_of(id) < r && plan::must_run(
            c,
            updated,
            id,
        ) && plan::phase_of(c, updated, id) == phase)
}

/// Passing a callback that does not belong to the phase leaves the phase as
/// it is.
proof fn lemma_phase_skips<I, F>(
    c: &CallbacksContainer<I, F>,
    updated: Set<I>,
    ids: Seq<CallbackId>,
    phase: Phase,
    id: CallbackId,
)
    requires
        c.ranks_are_topological(),
        c.contains(id),
        is_phase_below(c, updated, ids, phase, c.rank_of(id)),
        !(plan::must_run(c, updated, id) && plan::phase_of(c, updated, id) == phase),
    ensures
        is_phase_below(c, updated, ids, phase, c.rank_of(id) + 1),
{
    let r = c.rank_of(id);
    assert forall|v: CallbackId| #[trigger]
        ids.contains(v) <==> (c.contains(v) && c.rank_of(v) < r + 1 && plan::must_run(c, updated, v)
            && plan::phase_of(c, updated, v) == phase) by {
        if c.contains(v) && v != id {
            assert(c.rank_of(v) != c.rank_of(id));
        }
    }
}

/// The callback of the next rank, if it belongs to the phase, goes to its end.
proof fn lemma_phase_takes<I, F>(
    c: &CallbacksContainer<I, F>,
    updated: Set<I>,
    ids: Seq<CallbackId>,
    phase: Phase,
    id: CallbackId,
)
    requires
        c.ranks_are_topological(),
        c.contains(id),
        is_phase_below(c, updated, ids, phase, c.rank_of(id)),
        plan::must_run(c, updated, id),
        plan::phase_of(c, updated, id) == phase,
    ensures
        is_phase_below(c, updated, ids.push(id), phase, c.rank_of(id) + 1),
{
    let r = c.rank_of(id);
    let longer = ids.push(id);
    assert(longer[ids.len() as int] == id);
    assert forall|v: CallbackId| #[trigger]
        longer.contains(v) <==> (c.contains(v) && c.rank_of(v) < r + 1 && plan::must_run(
            c,
            updated,
            v,
        ) && plan::phase_of(c, updated, v) == phase) by {
        if longer.contains(v) {
            let k = choose|k: int| 0 <= k < longer.len() && longer[k] == v;
            if k < ids.len() {
                assert(ids[k] == v);
                assert(ids.contains(v));
            }
        }
        if c.contains(v) && c.rank_of(v) < r + 1 && plan::must_run(c, updated, v)
            && plan::phase_of(c, updated, v) == phase {
            if v != id {
                assert(c.rank_of(v) != c.rank_of(id));
                assert(ids.contains(v));
                let k = choose|k: int| 0 <= k < ids.len() && ids[k] == v;
                assert(longer[k] == v);
            }
        }
    }
    assert forall|i: int, j: int| 0 <= i < j < longer.len() implies c.rank_of(
        #[trigger] longer[i],
    ) < c.rank_of(#[trigger] longer[j]) by {
        assert(longer[i] == ids[i]);
        assert(ids.contains(ids[i]));
        if j < ids.len() {
            assert(longer[j] == ids[j]);
        }
    }
}

/// Computes the plan for an update of the identifiers `updated_inputs`: the
/// callbacks that read one of them and all that depend on those, by growing
/// rank, each in its phase.
pub fn compute_plan<I: Hash + Eq + Copy, F>(
    c: &CallbacksContainer<I, F>,
    updated_inputs: &HashSet<I>,
) -> (result: ExecutionPlan)
    requires
        c.wf(),
        c.is_frozen(),
    ensures
        plan::is_execution_plan(c, updated_inputs@, result),
{
    let ghost updated = updated_inputs@;
    proof {
        c.lemma_wf_identifiers();
    }
    let seeds = identifiers_of(updated_inputs);
    let marks = reach(c, &seeds, Ghost(updated));
    let pre = upstream_flags(c, &marks, Ghost(updated));
    let post = downstream_flags(c, &marks, Ghost(updated));
    let order = c.get_topological_order();
    let n = order.len();
    let mut result = ExecutionPlan::new();
    proof {
        c.lemma_ranks_are_topological();
    }
    let mut r: usize = 0;
    while r < n
        invariant
            c.wf(),
            c.is_frozen(),
            c.ranks_are_topological(),
            marks_the_plan(c, updated, marks@),
            c.is_rank_order(order@),
            n == c.len(),
            pre@.len() == n,
            post@.len() == n,
            forall|id: CallbackId|
                c.contains(id) && plan::must_run(c, updated, id) ==> (#[trigger] pre@[id.0 as int]
                    <==> plan::upstream_local(c, updated, id)),
            forall|id: CallbackId|
                c.contains(id) && plan::must_run(c, updated, id) ==> (#[trigger] post@[id.0 as int]
                    <==> plan::downstream_local(c, updated, id)),
            0 <= r <= n,
            is_phase_below(c, updated, result.client_pre_plan@, Phase::PreLocal, r as int),
            is_phase_below(c, updated, result.server_plan@, Phase::Remote, r as int),
            is_phase_below(c, updated, result.client_post_plan@, Phase::PostLocal, r as int),
        decreases n - r,
    {
        let id = order[r];
        assert(c.contains(order@[r as int]) && c.rank_of(order@[r as int]) == r);
        if marks[id.0] != Mark::Unvisited {
            let phase = if c.get_callback(&id).cb_type == CallbackType::Server {
                Phase::Remote
            } else if pre[id.0] {
                Phase::PreLocal
            } else if post[id.0] {
                Phase::PostLocal
            } else {
                Phase::Remote
            };
            assert(phase == plan::phase_of(c, updated, id));
            match phase {
                Phase::PreLocal => {
                    proof {
                        lemma_phase_takes(c, updated, result.client_pre_plan@, Phase::PreLocal, id);
                        lemma_phase_skips(c, updated, result.server_plan@, Phase::Remote, id);
                        lemma_phase_skips(c, updated, result.client_post_plan@, Phase::PostLocal, id);
                    }
                    result.client_pre_plan.push(id);
                },
                Phase::Remote => {
                    proof {
                        lemma_phase_skips(c, updated, result.client_pre_plan@, Phase::PreLocal, id);
                        lemma_phase_takes(c, updated, result.server_plan@, Phase::Remote, id);
                        lemma_phase_skips(c, updated, result.client_post_plan@, Phase::PostLocal, id);
                    }
                    result.server_plan.push(id);
                },
                Phase::PostLocal => {
                    proof {
                        lemma_phase_skips(c, updated, result.client_pre_plan@, Phase::PreLocal, id);
                        lemma_phase_skips(c, updated, result.server_plan@, Phase::Remote, id);
                        lemma_phase_takes(c, updated, result.client_post_plan@, Phase::PostLocal, id);
                    }
                    result.client_post_plan.push(id);
                },
            }
        } else {
            proof {
                lemma_phase_skips(c, updated, result.client_pre_plan@, Phase::PreLocal, id);
                lemma_phase_skips(c, updated, result.server_plan@, Phase::Remote, id);
                lemma_phase_skips(c, updated, result.client_post_plan@, Phase::PostLocal, id);
            }
        }
        r += 1;
    }
    result
}

} // verus!
