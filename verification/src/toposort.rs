//! Depth-first topological sorting of a graph given by adjacency lists.
//!
//! Node `u` is the index `u` of the outer vector; `adj[u]` lists the nodes
//! that `u` has an arc to. The sorter either returns every node once, each
//! before all the nodes it has an arc to, or a closed walk of the graph.

use vstd::prelude::*;
use crate::callback::CallbackId;

verus! {

/// Every id in the lists names a node of the graph.
pub open spec fn adjacency_closed(adj: Seq<Vec<CallbackId>>) -> bool {
    forall|u: int, k: int|
        0 <= u < adj.len() && 0 <= k < adj[u]@.len() ==> (#[trigger] adj[u]@[k]).0 < adj.len()
}

/// There is an arc from `u` to `v`.
pub open spec fn has_arc(adj: Seq<Vec<CallbackId>>, u: CallbackId, v: CallbackId) -> bool {
    &&& u.0 < adj.len()
    &&& v.0 < adj.len()
    &&& adj[u.0 as int]@.contains(v)
}

/// `walk` follows arcs of the graph from its first node to its last.
pub open spec fn is_walk(adj: Seq<Vec<CallbackId>>, walk: Seq<CallbackId>) -> bool {
    &&& walk.len() >= 1
    &&& forall|i: int| 0 <= i < walk.len() ==> (#[trigger] walk[i]).0 < adj.len()
    &&& forall|i: int|
        0 <= i < walk.len() - 1 ==> has_arc(adj, #[trigger] walk[i], walk[i + 1])
}

/// `walk` is a walk of at least one arc that ends where it starts.
pub open spec fn is_cycle(adj: Seq<Vec<CallbackId>>, walk: Seq<CallbackId>) -> bool {
    &&& is_walk(adj, walk)
    &&& walk.len() >= 2
    &&& walk.first() == walk.last()
}

/// No walk of at least one arc ends where it starts.
pub open spec fn is_acyclic(adj: Seq<Vec<CallbackId>>) -> bool {
    forall|walk: Seq<CallbackId>| !is_cycle(adj, walk)
}

/// `order` holds every node exactly once, and each node stands before all
/// the nodes it has an arc to.
pub open spec fn is_topological_order(adj: Seq<Vec<CallbackId>>, order: Seq<CallbackId>) -> bool {
    &&& order.len() == adj.len()
    &&& order.no_duplicates()
    &&& forall|i: int| 0 <= i < order.len() ==> (#[trigger] order[i]).0 < adj.len()
    &&& forall|v: CallbackId| v.0 < adj.len() ==> #[trigger] order.contains(v)
    &&& forall|i: int, j: int|
        0 <= i < order.len() && 0 <= j < order.len() && #[trigger] has_arc(adj, order[i], order[j])
            ==> i < j
}

/// `rank` numbers the nodes `0..n` without repetition, and grows strictly
/// along every arc.
pub open spec fn is_topological_rank(adj: Seq<Vec<CallbackId>>, rank: Seq<usize>) -> bool {
    &&& rank.len() == adj.len()
    &&& forall|v: CallbackId| v.0 < rank.len() ==> #[trigger] rank[v.0 as int] < rank.len()
    &&& forall|u: CallbackId, v: CallbackId|
        u.0 < rank.len() && v.0 < rank.len() && u != v ==> #[trigger] rank[u.0 as int]
            != #[trigger] rank[v.0 as int]
    &&& forall|u: CallbackId, v: CallbackId| #[trigger]
        has_arc(adj, u, v) ==> rank[u.0 as int] < rank[v.0 as int]
}

/// Along a walk in a ranked graph the rank never falls, and it grows as soon
/// as the walk has an arc.
pub proof fn lemma_walk_climbs(adj: Seq<Vec<CallbackId>>, rank: Seq<usize>, walk: Seq<CallbackId>)
    requires
        is_topological_rank(adj, rank),
        is_walk(adj, walk),
    ensures
        rank[walk.first().0 as int] <= rank[walk.last().0 as int],
        walk.len() >= 2 ==> rank[walk.first().0 as int] < rank[walk.last().0 as int],
    decreases walk.len(),
{
    if walk.len() >= 2 {
        let shorter = walk.drop_last();
        assert(is_walk(adj, shorter)) by {
            assert forall|i: int| 0 <= i < shorter.len() - 1 implies has_arc(
                adj,
                #[trigger] shorter[i],
                shorter[i + 1],
            ) by {
                assert(shorter[i] == walk[i]);
                assert(shorter[i + 1] == walk[i + 1]);
            }
        }
        lemma_walk_climbs(adj, rank, shorter);
        let k = walk.len() - 2;
        assert(shorter.last() == walk[k]);
        assert(has_arc(adj, walk[k], walk[k + 1]));
    }
}

/// A graph that has a topological rank has no cycle.
pub proof fn lemma_ranked_graph_is_acyclic(adj: Seq<Vec<CallbackId>>, rank: Seq<usize>)
    requires
        is_topological_rank(adj, rank),
    ensures
        is_acyclic(adj),
{
    assert forall|walk: Seq<CallbackId>| !is_cycle(adj, walk) by {
        if is_cycle(adj, walk) {
            lemma_walk_climbs(adj, rank, walk);
        }
    }
}

/// The nodes in the order in which a depth-first walk leaves them. The walk
/// starts with the nodes `done` behind it and takes the nodes of `list` in
/// turn: it passes over a node that it has left already, and leaves a node
/// once it has taken, in the same way, the nodes that the node has an arc
/// to. `fuel` bounds how deep the walk goes.
pub open spec fn sweep(
    adj: Seq<Vec<CallbackId>>,
    done: Seq<CallbackId>,
    list: Seq<CallbackId>,
    fuel: nat,
) -> Seq<CallbackId>
    decreases fuel, list.len(),
{
    if list.len() == 0 {
        done
    } else {
        let before = sweep(adj, done, list.drop_last(), fuel);
        let v = list.last();
        if fuel == 0 || v.0 >= adj.len() || before.contains(v) {
            before
        } else {
            sweep(adj, before, adj[v.0 as int]@, (fuel - 1) as nat).push(v)
        }
    }
}

/// The nodes `0..n`, in order.
pub open spec fn all_nodes(n: nat) -> Seq<CallbackId> {
    Seq::new(n, |i: int| CallbackId(i as usize))
}

/// The nodes of the graph in the order in which a depth-first walk that
/// takes the nodes in the order of their numbers leaves them.
pub open spec fn post_order(adj: Seq<Vec<CallbackId>>) -> Seq<CallbackId> {
    sweep(adj, Seq::empty(), all_nodes(adj.len()), adj.len())
}

/// The post-order of the graph from its end to its start: in a graph
/// without cycles, every node stands before the nodes it has an arc to.
pub open spec fn depth_first_order(adj: Seq<Vec<CallbackId>>) -> Seq<CallbackId> {
    post_order(adj).reverse()
}

/// What the walk does with one node.
pub proof fn lemma_sweep_one(adj: Seq<Vec<CallbackId>>, done: Seq<CallbackId>, v: CallbackId, fuel: nat)
    ensures
        sweep(adj, done, seq![v], fuel) == if fuel == 0 || v.0 >= adj.len() || done.contains(v) {
            done
        } else {
            sweep(adj, done, adj[v.0 as int]@, (fuel - 1) as nat).push(v)
        },
{
    let list = seq![v];
    assert(list.drop_last() =~= Seq::<CallbackId>::empty());
    assert(list.last() == v);
    assert(sweep(adj, done, list.drop_last(), fuel) == done);
}

/// Taking one more node of the list is taking that node after the others.
pub proof fn lemma_sweep_step(
    adj: Seq<Vec<CallbackId>>,
    done: Seq<CallbackId>,
    list: Seq<CallbackId>,
    j: int,
    fuel: nat,
)
    requires
        0 <= j < list.len(),
    ensures
        sweep(adj, done, list.take(j + 1), fuel) == sweep(
            adj,
            sweep(adj, done, list.take(j), fuel),
            seq![list[j]],
            fuel,
        ),
{
    let longer = list.take(j + 1);
    assert(longer.drop_last() =~= list.take(j));
    assert(longer.last() == list[j]);
    lemma_sweep_one(adj, sweep(adj, done, list.take(j), fuel), list[j], fuel);
}

/// The three colours of the depth-first search.
#[derive(Clone, Copy, Debug, PartialEq, Eq, Structural)]
pub enum Mark {
    Unvisited,
    InProgress,
    Done,
}

/// How many entries of `marks` equal `mark`.
pub open spec fn count_of(marks: Seq<Mark>, mark: Mark) -> nat
    decreases marks.len(),
{
    if marks.len() == 0 {
        0
    } else {
        count_of(marks.drop_last(), mark) + if marks.last() == mark {
            1nat
        } else {
            0nat
        }
    }
}

/// No more entries equal `mark` than there are entries.
pub proof fn lemma_count_bounded(marks: Seq<Mark>, mark: Mark)
    ensures
        count_of(marks, mark) <= marks.len(),
    decreases marks.len(),
{
    if marks.len() > 0 {
        lemma_count_bounded(marks.drop_last(), mark);
    }
}

/// Where every entry equals `mark`, the count is the length.
pub proof fn lemma_count_all(marks: Seq<Mark>, mark: Mark)
    requires
        forall|i: int| 0 <= i < marks.len() ==> marks[i] == mark,
    ensures
        count_of(marks, mark) == marks.len(),
    decreases marks.len(),
{
    if marks.len() > 0 {
        lemma_count_all(marks.drop_last(), mark);
    }
}

/// Where no entry equals `mark`, the count is zero.
pub proof fn lemma_count_none(marks: Seq<Mark>, mark: Mark)
    requires
        forall|i: int| 0 <= i < marks.len() ==> marks[i] != mark,
    ensures
        count_of(marks, mark) == 0,
    decreases marks.len(),
{
    if marks.len() > 0 {
        lemma_count_none(marks.drop_last(), mark);
    }
}

/// Changing one entry moves one unit from the count of its old value to the
/// count of its new value.
pub proof fn lemma_count_update(marks: Seq<Mark>, i: int, new_mark: Mark, mark: Mark)
    requires
        0 <= i < marks.len(),
    ensures
        count_of(marks.update(i, new_mark), mark) == count_of(marks, mark) + (if new_mark
            == mark {
            1int
        } else {
            0int
        }) - (if marks[i] == mark {
            1int
        } else {
            0int
        }),
    decreases marks.len(),
{
    let updated = marks.update(i, new_mark);
    if i == marks.len() - 1 {
        assert(updated.drop_last() =~= marks.drop_last());
    } else {
        assert(updated.drop_last() =~= marks.drop_last().update(i, new_mark));
        lemma_count_update(marks.drop_last(), i, new_mark, mark);
    }
}

/// The state of the search is consistent: `order` lists the finished nodes,
/// once each, and every node that a finished node has an arc to was
/// finished before it.
pub open spec fn search_inv(adj: Seq<Vec<CallbackId>>, marks: Seq<Mark>, order: Seq<CallbackId>) -> bool {
    &&& marks.len() == adj.len()
    &&& adjacency_closed(adj)
    &&& forall|i: int| 0 <= i < order.len() ==> (#[trigger] order[i]).0 < adj.len()
    &&& order.no_duplicates()
    &&& forall|v: CallbackId|
        v.0 < adj.len() ==> (marks[v.0 as int] == Mark::Done <==> #[trigger] order.contains(v))
    &&& forall|i: int, w: CallbackId|
        0 <= i < order.len() && #[trigger] has_arc(adj, order[i], w) ==> placed_before(order, i, w)
    &&& order.len() == count_of(marks, Mark::Done)
}

/// Node `w` stands in `order` before position `i`.
pub open spec fn placed_before(order: Seq<CallbackId>, i: int, w: CallbackId) -> bool {
    exists|j: int| 0 <= j < i && #[trigger] order[j] == w
}

/// `trail` follows arcs backwards: each node has an arc to the one before it.
pub open spec fn is_backward_walk(adj: Seq<Vec<CallbackId>>, trail: Seq<CallbackId>) -> bool {
    &&& trail.len() >= 1
    &&& forall|i: int| 0 <= i < trail.len() ==> (#[trigger] trail[i]).0 < adj.len()
    &&& forall|i: int|
        0 <= i < trail.len() - 1 ==> has_arc(adj, trail[i + 1], #[trigger] trail[i])
}

/// The trail has come back to the node it started from.
pub open spec fn trail_closed(trail: Seq<CallbackId>) -> bool {
    trail.len() >= 2 && trail.first() == trail.last()
}

/// Visits `id` and, depth first, everything reachable from it that is not
/// finished yet. Returns `true` when it ran into a node that is still in
/// progress; `cycle` then holds the arcs walked back from that node.
fn visit(
    id: CallbackId,
    adj: &Vec<Vec<CallbackId>>,
    marks: &mut Vec<Mark>,
    cycle: &mut Vec<CallbackId>,
    order: &mut Vec<CallbackId>,
    Ghost(stack): Ghost<Seq<CallbackId>>,
    Ghost(fuel): Ghost<nat>,
) -> (found: bool)
    requires
        id.0 < adj@.len(),
        search_inv(adj@, old(marks)@, old(order)@),
        old(cycle)@.len() == 0,
        fuel >= count_of(old(marks)@, Mark::Unvisited),
        forall|v: CallbackId|
            v.0 < adj@.len() && old(marks)@[v.0 as int] == Mark::InProgress
                ==> #[trigger] stack.contains(v),
    ensures
        final(marks)@.len() == old(marks)@.len(),
        count_of(final(marks)@, Mark::Unvisited) <= count_of(old(marks)@, Mark::Unvisited),
        !found ==> {
            &&& search_inv(adj@, final(marks)@, final(order)@)
            &&& final(marks)@[id.0 as int] == Mark::Done
            &&& forall|v: int|
                0 <= v < adj@.len() ==> (final(marks)@[v] == Mark::InProgress <==> old(marks)@[v]
                    == Mark::InProgress)
            &&& forall|v: int|
                0 <= v < adj@.len() && old(marks)@[v] == Mark::Done ==> final(marks)@[v]
                    == Mark::Done
            &&& final(cycle)@.len() == 0
            &&& final(order)@ == sweep(adj@, old(order)@, seq![id], fuel)
        },
        found ==> {
            &&& is_backward_walk(adj@, final(cycle)@)
            &&& (trail_closed(final(cycle)@) || (final(cycle)@.last() == id && stack.contains(
                final(cycle)@[0],
            )))
        },
    decreases count_of(old(marks)@, Mark::Unvisited),
{
    let idx = id.0;
    let mark = marks[idx];
    proof {
        lemma_sweep_one(adj@, order@, id, fuel);
    }
    if mark == Mark::Done {
        assert(order@.contains(id));
        return false;
    }
    if mark == Mark::InProgress {
        cycle.push(id);
        return true;
    }
    proof {
        lemma_count_update(marks@, idx as int, Mark::InProgress, Mark::Unvisited);
        lemma_count_update(marks@, idx as int, Mark::InProgress, Mark::Done);
    }
    marks[idx] = Mark::InProgress;
    let ghost inner_stack = stack.push(id);
    assert(inner_stack.last() == id);
    assert(forall|k: int| 0 <= k < stack.len() ==> inner_stack[k] == stack[k]);
    assert(search_inv(adj@, marks@, order@));
    let n_deps = adj[idx].len();
    let mut j: usize = 0;
    assert(adj@[idx as int]@.take(0) =~= Seq::<CallbackId>::empty());
    while j < n_deps
        invariant
            fuel >= 1,
            fuel >= count_of(old(marks)@, Mark::Unvisited),
            order@ == sweep(adj@, old(order)@, adj@[idx as int]@.take(j as int), (fuel - 1) as nat),
            !old(order)@.contains(id),
            idx == id.0,
            idx < adj@.len(),
            n_deps == adj@[idx as int]@.len(),
            0 <= j <= n_deps,
            inner_stack == stack.push(id),
            marks@.len() == old(marks)@.len(),
            marks@.len() == adj@.len(),
            search_inv(adj@, marks@, order@),
            marks@[idx as int] == Mark::InProgress,
            cycle@.len() == 0,
            count_of(marks@, Mark::Unvisited) < count_of(old(marks)@, Mark::Unvisited),
            forall|v: int|
                0 <= v < adj@.len() && v != idx ==> (marks@[v] == Mark::InProgress <==> old(
                    marks,
                )@[v] == Mark::InProgress),
            forall|v: int|
                0 <= v < adj@.len() && old(marks)@[v] == Mark::Done ==> marks@[v] == Mark::Done,
            forall|v: CallbackId|
                v.0 < adj@.len() && old(marks)@[v.0 as int] == Mark::InProgress
                    ==> #[trigger] stack.contains(v),
            forall|k: int|
                0 <= k < j ==> marks@[(#[trigger] adj@[idx as int]@[k]).0 as int] == Mark::Done,
        decreases n_deps - j,
    {
        let dep = adj[idx][j];
        assert(dep == adj@[idx as int]@[j as int]);
        assert(dep.0 < adj@.len());
        assert forall|v: CallbackId|
            v.0 < adj@.len() && marks@[v.0 as int] == Mark::InProgress implies #[trigger] inner_stack.contains(
            v,
        ) by {
            if v.0 == idx {
                assert(inner_stack[stack.len() as int] == id);
            } else {
                assert(stack.contains(v));
                let k = choose|k: int| 0 <= k < stack.len() && stack[k] == v;
                assert(inner_stack[k] == v);
            }
        }
        let ghost before = marks@;
        let ghost order_before = order@;
        proof {
            lemma_sweep_step(adj@, old(order)@, adj@[idx as int]@, j as int, (fuel - 1) as nat);
        }
        if visit(dep, adj, marks, cycle, order, Ghost(inner_stack), Ghost((fuel - 1) as nat)) {
            let closed = cycle.len() >= 2 && cycle[0] == cycle[cycle.len() - 1];
            if !closed {
                proof {
                    assert(cycle@.last() == dep);
                    assert(has_arc(adj@, id, dep));
                    let first = cycle@[0];
                    let k = choose|k: int| 0 <= k < inner_stack.len() && inner_stack[k] == first;
                    if first != id {
                        assert(k < stack.len());
                        assert(stack[k] == first);
                    }
                }
                let ghost trail = cycle@;
                cycle.push(id);
                proof {
                    assert forall|i: int| 0 <= i < cycle@.len() - 1 implies has_arc(
                        adj@,
                        cycle@[i + 1],
                        #[trigger] cycle@[i],
                    ) by {
                        if i < trail.len() - 1 {
                            assert(cycle@[i] == trail[i]);
                            assert(cycle@[i + 1] == trail[i + 1]);
                        }
                    }
                }
            }
            return true;
        }
        j += 1;
    }
    proof {
        lemma_count_update(marks@, idx as int, Mark::Done, Mark::Unvisited);
        lemma_count_update(marks@, idx as int, Mark::Done, Mark::Done);
    }
    let ghost marks_before = marks@;
    let ghost order_before = order@;
    marks[idx] = Mark::Done;
    order.push(id);
    proof {
        assert(adj@[idx as int]@.take(n_deps as int) =~= adj@[idx as int]@);
        let n = adj@.len() as int;
        let last = order_before.len() as int;
        assert(!order_before.contains(id));
        assert(order@[last] == id);
        assert forall|target: CallbackId| target.0 < n implies (marks@[target.0 as int]
            == Mark::Done <==> #[trigger] order@.contains(target)) by {
            let v = target.0;
            if v == idx {
                assert(order@[last] == target);
            } else {
                if order_before.contains(target) {
                    let k = choose|k: int| 0 <= k < order_before.len() && order_before[k] == target;
                    assert(order@[k] == target);
                }
                if order@.contains(target) {
                    let k = choose|k: int| 0 <= k < order@.len() && order@[k] == target;
                    assert(order@[last].0 == idx);
                    assert(k != last);
                    assert(order_before[k] == target);
                }
            }
        }
        assert forall|i: int, w: CallbackId|
            0 <= i < order@.len() && #[trigger] has_arc(adj@, order@[i], w) implies placed_before(
            order@,
            i,
            w,
        ) by {
            if i < last {
                assert(order@[i] == order_before[i]);
                assert(placed_before(order_before, i, w));
                let p = choose|p: int| 0 <= p < i && order_before[p] == w;
                assert(order@[p] == w);
            } else {
                let target = w;
                let k = choose|k: int| 0 <= k < adj@[idx as int]@.len() && adj@[idx as int]@[k] == target;
                assert(marks_before[adj@[idx as int]@[k].0 as int] == Mark::Done);
                assert(order_before.contains(target));
                let p = choose|p: int| 0 <= p < order_before.len() && order_before[p] == target;
                assert(order@[p] == target);
            }
        }
        assert(order@.no_duplicates()) by {
            assert forall|a: int, b: int|
                0 <= a < order@.len() && 0 <= b < order@.len() && a != b implies order@[a]
                != order@[b] by {
                if a < last && b < last {
                    assert(order_before[a] != order_before[b]);
                } else if a == last {
                    assert(order_before[b] == order@[b]);
                } else {
                    assert(order_before[a] == order@[a]);
                }
            }
        }
    }
    false
}

/// Sorts the nodes of the graph so that each stands before the nodes it has
/// an arc to, or reports a cycle.
///
/// The cycle is returned in the direction of the arcs: it starts and ends at
/// the same node, and each node has an arc to the next.
pub fn topological_order(adj: &Vec<Vec<CallbackId>>) -> (result: Result<
    Vec<CallbackId>,
    Vec<CallbackId>,
>)
    requires
        adjacency_closed(adj@),
    ensures
        match result {
            Ok(order) => is_topological_order(adj@, order@) && order@ == depth_first_order(adj@),
            Err(cycle) => is_cycle(adj@, cycle@),
        },
{
    let n = adj.len();
    let mut marks: Vec<Mark> = Vec::new();
    let mut i: usize = 0;
    while i < n
        invariant
            0 <= i <= n,
            marks@.len() == i,
            forall|k: int| 0 <= k < i ==> marks@[k] == Mark::Unvisited,
        decreases n - i,
    {
        marks.push(Mark::Unvisited);
        i += 1;
    }
    let mut cycle: Vec<CallbackId> = Vec::new();
    let mut order: Vec<CallbackId> = Vec::new();
    proof {
        lemma_count_none(marks@, Mark::Done);
    }
    let mut v: usize = 0;
    let ghost nodes = all_nodes(n as nat);
    assert(nodes.take(0) =~= Seq::<CallbackId>::empty());
    while v < n
        invariant
            n == adj@.len(),
            nodes == all_nodes(n as nat),
            order@ == sweep(adj@, Seq::empty(), nodes.take(v as int), n as nat),
            0 <= v <= n,
            search_inv(adj@, marks@, order@),
            cycle@.len() == 0,
            forall|u: int| 0 <= u < n ==> marks@[u] != Mark::InProgress,
            forall|u: int| 0 <= u < v ==> marks@[u] == Mark::Done,
        decreases n - v,
    {
        proof {
            lemma_sweep_step(adj@, Seq::empty(), nodes, v as int, n as nat);
            lemma_sweep_one(adj@, order@, CallbackId(v), n as nat);
            lemma_count_bounded(marks@, Mark::Unvisited);
            assert(nodes[v as int] == CallbackId(v));
        }
        if marks[v] != Mark::Done {
            if visit(
                CallbackId(v),
                adj,
                &mut marks,
                &mut cycle,
                &mut order,
                Ghost(Seq::empty()),
                Ghost(n as nat),
            ) {
                let forward = reversed(&cycle);
                proof {
                    let c = cycle@;
                    let f = forward@;
                    assert(trail_closed(c));
                    assert forall|i: int| 0 <= i < f.len() - 1 implies has_arc(
                        adj@,
                        #[trigger] f[i],
                        f[i + 1],
                    ) by {
                        let k = c.len() - 2 - i;
                        assert(f[i] == c[k + 1]);
                        assert(f[i + 1] == c[k]);
                        assert(has_arc(adj@, c[k + 1], c[k]));
                    }
                    assert forall|i: int| 0 <= i < f.len() implies (#[trigger] f[i]).0 < adj@.len() by {
                        assert(f[i] == c[c.len() - 1 - i]);
                    }
                    assert(f.first() == c.last());
                    assert(f.last() == c.first());
                }
                return Err(forward);
            }
        }
        else {
            assert(order@.contains(CallbackId(v)));
        }
        v += 1;
    }
    proof {
        lemma_count_all(marks@, Mark::Done);
        assert(nodes.take(n as int) =~= nodes);
    }
    let sorted = reversed(&order);
    proof {
        assert(sorted@ =~= order@.reverse());
        let o = order@;
        let s = sorted@;
        let len = o.len() as int;
        assert forall|i: int| 0 <= i < s.len() implies (#[trigger] s[i]).0 < adj@.len() by {
            assert(s[i] == o[len - 1 - i]);
        }
        assert(s.no_duplicates()) by {
            assert forall|a: int, b: int| 0 <= a < s.len() && 0 <= b < s.len() && a != b implies s[a]
                != s[b] by {
                assert(s[a] == o[len - 1 - a]);
                assert(s[b] == o[len - 1 - b]);
            }
        }
        assert forall|u: CallbackId| u.0 < adj@.len() implies #[trigger] s.contains(u) by {
            assert(marks@[u.0 as int] == Mark::Done);
            assert(o.contains(u));
            let k = choose|k: int| 0 <= k < o.len() && o[k] == u;
            assert(s[len - 1 - k] == o[k]);
        }
        assert forall|i: int, j: int|
            0 <= i < s.len() && 0 <= j < s.len() && #[trigger] has_arc(adj@, s[i], s[j]) implies i
            < j by {
            let p = len - 1 - i;
            assert(s[i] == o[p]);
            assert(s[j] == o[len - 1 - j]);
            assert(has_arc(adj@, o[p], s[j]));
            assert(placed_before(o, p, s[j]));
            let q = choose|q: int| 0 <= q < p && o[q] == s[j];
            assert(o[q] == o[len - 1 - j]);
        }
    }
    Ok(sorted)
}

/// The entries of `list` from last to first.
pub fn reversed(list: &Vec<CallbackId>) -> (result: Vec<CallbackId>)
    ensures
        result@.len() == list@.len(),
        forall|i: int| 0 <= i < list@.len() ==> result@[i] == list@[list@.len() - 1 - i],
{
    let n = list.len();
    let mut result: Vec<CallbackId> = Vec::new();
    let mut i: usize = 0;
    while i < n
        invariant
            n == list@.len(),
            0 <= i <= n,
            result@.len() == i,
            forall|k: int| 0 <= k < i ==> result@[k] == list@[n - 1 - k],
        decreases n - i,
    {
        result.push(list[n - 1 - i]);
        i += 1;
    }
    result
}

} // verus!
