//! The dependency graph that the callbacks' declarations induce.
//!
//! A callback that writes an identifier feeds every callback that reads it:
//! the reader is a dependent of the writer, the writer an ancestor of the
//! reader. This module states that relation over the registered callbacks and
//! builds the lookup tables for it.

use vstd::prelude::*;
use std::collections::HashMap;
use std::hash::Hash;
use crate::callback::{CallbackId, CallbackWithId};
use crate::toposort;

verus! {

/// Callback `c` is registered and declares `x` among its inputs.
pub open spec fn reads<I, F>(entries: Seq<CallbackWithId<I, F>>, c: CallbackId, x: I) -> bool {
    c.0 < entries.len() && entries[c.0 as int].callback.inputs@.contains(x)
}

/// Callback `c` is registered and declares `x` among its outputs.
pub open spec fn writes<I, F>(entries: Seq<CallbackWithId<I, F>>, c: CallbackId, x: I) -> bool {
    c.0 < entries.len() && entries[c.0 as int].callback.outputs@.contains(x)
}

/// `consumer` reads an identifier that `producer` writes: `consumer` is a
/// dependent of `producer`, and `producer` an ancestor of `consumer`.
pub open spec fn depends_on<I, F>(
    entries: Seq<CallbackWithId<I, F>>,
    producer: CallbackId,
    consumer: CallbackId,
) -> bool {
    exists|x: I| #[trigger] writes(entries, producer, x) && reads(entries, consumer, x)
}

/// `id`, once for each entry of `list` that equals `x`.
pub open spec fn once_per_match<T>(list: Seq<T>, x: T, id: CallbackId) -> Seq<CallbackId>
    decreases list.len(),
{
    if list.len() == 0 {
        Seq::empty()
    } else {
        once_per_match(list.drop_last(), x, id) + if list.last() == x {
            seq![id]
        } else {
            Seq::empty()
        }
    }
}

/// The callbacks among the first `n` that read `x`, in registration order,
/// each once for every time it lists `x` among its inputs.
pub open spec fn readers_among<I, F>(entries: Seq<CallbackWithId<I, F>>, n: nat, x: I) -> Seq<
    CallbackId,
>
    decreases n,
{
    if n == 0 || n > entries.len() {
        Seq::empty()
    } else {
        readers_among(entries, (n - 1) as nat, x) + once_per_match(
            entries[n - 1].callback.inputs@,
            x,
            CallbackId((n - 1) as usize),
        )
    }
}

/// The callbacks that read `x`, in registration order.
pub open spec fn readers_of<I, F>(entries: Seq<CallbackWithId<I, F>>, x: I) -> Seq<CallbackId> {
    readers_among(entries, entries.len(), x)
}

/// The readers of the first `j` identifiers of `outputs`, identifier by
/// identifier.
pub open spec fn readers_of_first<I, F>(
    entries: Seq<CallbackWithId<I, F>>,
    outputs: Seq<I>,
    j: nat,
) -> Seq<CallbackId>
    decreases j,
{
    if j == 0 || j > outputs.len() {
        Seq::empty()
    } else {
        readers_of_first(entries, outputs, (j - 1) as nat) + readers_of(entries, outputs[j - 1])
    }
}

/// The dependents of callback `u`: for each identifier that it writes, in
/// the order of its declaration, the callbacks that read it.
pub open spec fn dependents_of<I, F>(entries: Seq<CallbackWithId<I, F>>, u: CallbackId) -> Seq<
    CallbackId,
> {
    readers_of_first(
        entries,
        entries[u.0 as int].callback.outputs@,
        entries[u.0 as int].callback.outputs@.len(),
    )
}

/// The callbacks among the first `n` that `v` is a dependent of, in
/// registration order, each once for every time it lists `v`.
pub open spec fn ancestors_among(dependents: Seq<Vec<CallbackId>>, n: nat, v: CallbackId) -> Seq<
    CallbackId,
>
    decreases n,
{
    if n == 0 || n > dependents.len() {
        Seq::empty()
    } else {
        ancestors_among(dependents, (n - 1) as nat, v) + once_per_match(
            dependents[n - 1]@,
            v,
            CallbackId((n - 1) as usize),
        )
    }
}

/// The list that the table holds for `x`: empty where it has none.
pub open spec fn entry_list<I>(index: Map<I, Vec<CallbackId>>, x: I) -> Seq<CallbackId> {
    if index.contains_key(x) {
        index[x]@
    } else {
        Seq::empty()
    }
}

/// Taking one more entry of `list` into account adds `id` where that entry
/// equals `x`.
pub proof fn lemma_once_per_match_next<T>(list: Seq<T>, j: int, x: T, id: CallbackId)
    requires
        0 <= j < list.len(),
    ensures
        once_per_match(list.take(j + 1), x, id) == once_per_match(list.take(j), x, id) + if list[j]
            == x {
            seq![id]
        } else {
            Seq::empty()
        },
{
    assert(list.take(j + 1).drop_last() =~= list.take(j));
    assert(list.take(j + 1).last() == list[j]);
}

/// The table lists callback `c` under identifier `x`.
pub open spec fn listed<I>(index: Map<I, Vec<CallbackId>>, x: I, c: CallbackId) -> bool {
    index.contains_key(x) && index[x]@.contains(c)
}

/// The table lists under each identifier exactly the callbacks that read it.
pub open spec fn is_input_index<I, F>(
    entries: Seq<CallbackWithId<I, F>>,
    index: Map<I, Vec<CallbackId>>,
) -> bool {
    &&& forall|x: I, c: CallbackId| #[trigger] listed(index, x, c) <==> reads(entries, c, x)
    &&& forall|x: I| #[trigger] entry_list(index, x) == readers_of(entries, x)
}

/// `dependents` lists for each callback exactly the callbacks that depend on it.
pub open spec fn is_dependents_table<I, F>(
    entries: Seq<CallbackWithId<I, F>>,
    dependents: Seq<Vec<CallbackId>>,
) -> bool {
    &&& dependents.len() == entries.len()
    &&& toposort::adjacency_closed(dependents)
    &&& forall|u: CallbackId, v: CallbackId| #[trigger]
        toposort::has_arc(dependents, u, v) <==> depends_on(entries, u, v)
    &&& forall|u: CallbackId|
        u.0 < dependents.len() ==> (#[trigger] dependents[u.0 as int])@ == dependents_of(entries, u)
}

/// `ancestors` lists for each callback exactly the callbacks it depends on.
pub open spec fn is_ancestors_table<I, F>(
    entries: Seq<CallbackWithId<I, F>>,
    ancestors: Seq<Vec<CallbackId>>,
) -> bool {
    &&& ancestors.len() == entries.len()
    &&& toposort::adjacency_closed(ancestors)
    &&& forall|u: CallbackId, v: CallbackId| #[trigger]
        toposort::has_arc(ancestors, v, u) <==> depends_on(entries, u, v)
    &&& forall|v: CallbackId|
        v.0 < ancestors.len() ==> (#[trigger] ancestors[v.0 as int])@ == ancestors_of(entries, v)
}

/// The callbacks among the first `n` that `v` depends on, in registration
/// order, each once for every time `v` stands among its dependents.
pub open spec fn ancestors_upto<I, F>(entries: Seq<CallbackWithId<I, F>>, n: nat, v: CallbackId) -> Seq<
    CallbackId,
>
    decreases n,
{
    if n == 0 || n > entries.len() {
        Seq::empty()
    } else {
        ancestors_upto(entries, (n - 1) as nat, v) + once_per_match(
            dependents_of(entries, CallbackId((n - 1) as usize)),
            v,
            CallbackId((n - 1) as usize),
        )
    }
}

/// The callbacks that `v` depends on, in registration order.
pub open spec fn ancestors_of<I, F>(entries: Seq<CallbackWithId<I, F>>, v: CallbackId) -> Seq<
    CallbackId,
> {
    ancestors_upto(entries, entries.len(), v)
}

/// Read off a table of dependents, the ancestors are those that the
/// callbacks' declarations give.
pub proof fn lemma_ancestors_by_table<I, F>(
    entries: Seq<CallbackWithId<I, F>>,
    dependents: Seq<Vec<CallbackId>>,
    n: nat,
    v: CallbackId,
)
    requires
        dependents.len() == entries.len(),
        n <= entries.len(),
        n <= usize::MAX,
        forall|u: CallbackId|
            u.0 < dependents.len() ==> (#[trigger] dependents[u.0 as int])@ == dependents_of(entries, u),
    ensures
        ancestors_among(dependents, n, v) == ancestors_upto(entries, n, v),
    decreases n,
{
    if n > 0 {
        lemma_ancestors_by_table(entries, dependents, (n - 1) as nat, v);
        let u = CallbackId((n - 1) as usize);
        assert(dependents[u.0 as int]@ == dependents_of(entries, u));
    }
}

/// `x` is one of the first `j` entries of `list`.
pub open spec fn among_first<T>(list: Seq<T>, j: int, x: T) -> bool {
    exists|k: int| 0 <= k < j && k < list.len() && #[trigger] list[k] == x
}

/// Callback `v` reads one of the first `j` identifiers of `outputs`.
pub open spec fn fed_by_first<I, F>(
    entries: Seq<CallbackWithId<I, F>>,
    outputs: Seq<I>,
    j: int,
    v: CallbackId,
) -> bool {
    exists|k: int| 0 <= k < j && k < outputs.len() && reads(entries, v, #[trigger] outputs[k])
}

/// Being among all entries of a list is being in the list.
pub proof fn lemma_among_all<T>(list: Seq<T>, x: T)
    ensures
        among_first(list, list.len() as int, x) <==> list.contains(x),
{
    if list.contains(x) {
        let k = choose|k: int| 0 <= k < list.len() && list[k] == x;
        assert(list[k] == x);
    }
}

/// Whether `x` is among the first `j + 1` entries, by the first `j` and the
/// one after them.
pub proof fn lemma_among_next<T>(list: Seq<T>, j: int, x: T)
    requires
        0 <= j < list.len(),
    ensures
        among_first(list, j + 1, x) <==> among_first(list, j, x) || list[j] == x,
{
    if among_first(list, j, x) {
        let k = choose|k: int| 0 <= k < j && k < list.len() && #[trigger] list[k] == x;
        assert(list[k] == x);
    }
    if list[j] == x {
        assert(among_first(list, j + 1, x));
    }
}

/// A list with one more entry holds what it held before, and that entry.
pub proof fn lemma_push_contains<T>(list: Seq<T>, a: T, x: T)
    ensures
        list.push(a).contains(x) <==> list.contains(x) || x == a,
{
    let longer = list.push(a);
    if list.contains(x) {
        let k = choose|k: int| 0 <= k < list.len() && list[k] == x;
        assert(longer[k] == x);
    }
    if x == a {
        assert(longer[list.len() as int] == x);
    }
    if longer.contains(x) {
        let k = choose|k: int| 0 <= k < longer.len() && longer[k] == x;
        if k < list.len() {
            assert(list[k] == x);
        }
    }
}

/// Builds the table from each identifier to the callbacks that read it.
pub fn build_input_index<I: Hash + Eq + Copy, F>(callbacks: &Vec<CallbackWithId<I, F>>) -> (index:
    HashMap<I, Vec<CallbackId>>)
    requires
        vstd::std_specs::hash::obeys_key_model::<I>(),
    ensures
        is_input_index(callbacks@, index@),
{
    let mut index: HashMap<I, Vec<CallbackId>> = HashMap::new();
    let n = callbacks.len();
    let mut i: usize = 0;
    while i < n
        invariant
            vstd::std_specs::hash::obeys_key_model::<I>(),
            n == callbacks@.len(),
            0 <= i <= n,
            forall|x: I, c: CallbackId| #[trigger]
                listed(index@, x, c) <==> (c.0 < i && reads(callbacks@, c, x)),
            forall|x: I| #[trigger] entry_list(index@, x) == readers_among(callbacks@, i as nat, x),
        decreases n - i,
    {
        let id = CallbackId(i);
        let inputs = &callbacks[i].callback.inputs;
        let m = inputs.len();
        let mut j: usize = 0;
        proof {
            assert(inputs@.take(0) =~= Seq::<I>::empty());
            assert forall|x: I| #[trigger]
                entry_list(index@, x) == readers_among(callbacks@, i as nat, x) + once_per_match(
                    inputs@.take(0),
                    x,
                    id,
                ) by {
                let base = readers_among(callbacks@, i as nat, x);
                assert(base =~= base + Seq::<CallbackId>::empty());
            }
        }
        while j < m
            invariant
                vstd::std_specs::hash::obeys_key_model::<I>(),
                n == callbacks@.len(),
                0 <= i < n,
                id == CallbackId(i),
                inputs@ == callbacks@[i as int].callback.inputs@,
                m == inputs@.len(),
                0 <= j <= m,
                forall|x: I, c: CallbackId| #[trigger]
                    listed(index@, x, c) <==> ((c.0 < i && reads(callbacks@, c, x)) || (c == id
                        && among_first(inputs@, j as int, x))),
                forall|x: I| #[trigger]
                    entry_list(index@, x) == readers_among(callbacks@, i as nat, x)
                        + once_per_match(inputs@.take(j as int), x, id),
            decreases m - j,
        {
            let x0 = inputs[j];
            let ghost before = index@;
            let mut list = match index.remove(&x0) {
                Some(list) => list,
                None => Vec::new(),
            };
            let ghost old_list = list@;
            list.push(id);
            let ghost new_list = list@;
            index.insert(x0, list);
            proof {
                assert forall|x: I, c: CallbackId| #[trigger]
                    listed(index@, x, c) <==> ((c.0 < i && reads(callbacks@, c, x)) || (c == id
                        && among_first(inputs@, j + 1, x))) by {
                    lemma_among_next(inputs@, j as int, x);
                    if x == x0 {
                        lemma_push_contains(old_list, id, c);
                        assert(index@[x0]@ == new_list);
                        assert(listed(before, x0, c) <==> old_list.contains(c));
                    } else {
                        assert(listed(before, x, c) <==> listed(index@, x, c));
                    }
                }
                assert forall|x: I| #[trigger]
                    entry_list(index@, x) == readers_among(callbacks@, i as nat, x)
                        + once_per_match(inputs@.take(j + 1), x, id) by {
                    lemma_once_per_match_next(inputs@, j as int, x, id);
                    let base = readers_among(callbacks@, i as nat, x);
                    let sofar = once_per_match(inputs@.take(j as int), x, id);
                    assert(entry_list(before, x) == base + sofar);
                    if x == x0 {
                        assert(old_list == entry_list(before, x0));
                        assert(entry_list(index@, x0) == new_list);
                        assert((base + sofar).push(id) =~= base + (sofar + seq![id]));
                    } else {
                        assert(entry_list(index@, x) == entry_list(before, x));
                        assert(base + sofar =~= base + (sofar + Seq::<CallbackId>::empty()));
                    }
                }
            }
            j += 1;
        }
        proof {
            assert forall|x: I, c: CallbackId| #[trigger]
                listed(index@, x, c) <==> (c.0 < i + 1 && reads(callbacks@, c, x)) by {
                lemma_among_all(inputs@, x);
            }
            assert(inputs@.take(m as int) =~= inputs@);
        }
        i += 1;
    }
    index
}

/// Collects the callbacks that read an identifier that callback `u` writes.
fn collect_dependents<I: Hash + Eq + Copy, F>(
    callbacks: &Vec<CallbackWithId<I, F>>,
    index: &HashMap<I, Vec<CallbackId>>,
    u: usize,
) -> (deps: Vec<CallbackId>)
    requires
        vstd::std_specs::hash::obeys_key_model::<I>(),
        u < callbacks@.len(),
        is_input_index(callbacks@, index@),
    ensures
        forall|v: CallbackId| #[trigger]
            deps@.contains(v) <==> depends_on(callbacks@, CallbackId(u), v),
        deps@ == dependents_of(callbacks@, CallbackId(u)),
{
    let outputs = &callbacks[u].callback.outputs;
    let m = outputs.len();
    let mut deps: Vec<CallbackId> = Vec::new();
    let mut j: usize = 0;
    assert(deps@ =~= readers_of_first(callbacks@, outputs@, 0));
    while j < m
        invariant
            vstd::std_specs::hash::obeys_key_model::<I>(),
            u < callbacks@.len(),
            is_input_index(callbacks@, index@),
            outputs@ == callbacks@[u as int].callback.outputs@,
            m == outputs@.len(),
            0 <= j <= m,
            forall|v: CallbackId| #[trigger]
                deps@.contains(v) <==> fed_by_first(callbacks@, outputs@, j as int, v),
            deps@ == readers_of_first(callbacks@, outputs@, j as nat),
        decreases m - j,
    {
        let o = outputs[j];
        let ghost start = deps@;
        match index.get(&o) {
            Some(list) => {
                let len = list.len();
                let mut t: usize = 0;
                assert(deps@ =~= start + list@.take(0));
                while t < len
                    invariant
                        len == list@.len(),
                        0 <= t <= len,
                        forall|v: CallbackId| #[trigger]
                            deps@.contains(v) <==> (start.contains(v) || among_first(
                                list@,
                                t as int,
                                v,
                            )),
                        deps@ == start + list@.take(t as int),
                    decreases len - t,
                {
                    let ghost prior = deps@;
                    deps.push(list[t]);
                    proof {
                        assert forall|v: CallbackId| #[trigger]
                            deps@.contains(v) <==> (start.contains(v) || among_first(
                                list@,
                                t + 1,
                                v,
                            )) by {
                            lemma_push_contains(prior, list@[t as int], v);
                            lemma_among_next(list@, t as int, v);
                        }
                        assert(deps@ =~= start + list@.take(t + 1));
                    }
                    t += 1;
                }
                proof {
                    assert(index@.contains_key(o) && index@[o] == *list);
                    assert forall|v: CallbackId| #[trigger]
                        deps@.contains(v) <==> fed_by_first(callbacks@, outputs@, j + 1, v) by {
                        lemma_among_all(list@, v);
                        assert(listed(index@, o, v) <==> reads(callbacks@, v, o));
                        lemma_fed_next(callbacks@, outputs@, j as int, v);
                    }
                    assert(list@.take(len as int) =~= list@);
                    assert(entry_list(index@, o) == readers_of(callbacks@, o));
                }
            },
            None => {
                proof {
                    assert(!index@.contains_key(o));
                    assert forall|v: CallbackId| #[trigger]
                        deps@.contains(v) <==> fed_by_first(callbacks@, outputs@, j + 1, v) by {
                        assert(listed(index@, o, v) <==> reads(callbacks@, v, o));
                        lemma_fed_next(callbacks@, outputs@, j as int, v);
                    }
                    assert(entry_list(index@, o) == readers_of(callbacks@, o));
                    assert(start =~= start + Seq::<CallbackId>::empty());
                }
            },
        }
        j += 1;
    }
    proof {
        assert forall|v: CallbackId| #[trigger]
            deps@.contains(v) <==> depends_on(callbacks@, CallbackId(u), v) by {
            lemma_fed_all(callbacks@, CallbackId(u), v);
        }
    }
    deps
}

/// Whether `v` reads one of the first `j + 1` identifiers, by the first `j`
/// and the one after them.
proof fn lemma_fed_next<I, F>(
    entries: Seq<CallbackWithId<I, F>>,
    outputs: Seq<I>,
    j: int,
    v: CallbackId,
)
    requires
        0 <= j < outputs.len(),
    ensures
        fed_by_first(entries, outputs, j + 1, v) <==> fed_by_first(entries, outputs, j, v) || reads(
            entries,
            v,
            outputs[j],
        ),
{
    if fed_by_first(entries, outputs, j, v) {
        let k = choose|k: int|
            0 <= k < j && k < outputs.len() && reads(entries, v, #[trigger] outputs[k]);
        assert(reads(entries, v, outputs[k]));
    }
    if reads(entries, v, outputs[j]) {
        assert(fed_by_first(entries, outputs, j + 1, v));
    }
}

/// A callback reads one of the identifiers that `u` writes exactly if it
/// depends on `u`.
proof fn lemma_fed_all<I, F>(entries: Seq<CallbackWithId<I, F>>, u: CallbackId, v: CallbackId)
    requires
        u.0 < entries.len(),
    ensures
        fed_by_first(
            entries,
            entries[u.0 as int].callback.outputs@,
            entries[u.0 as int].callback.outputs@.len() as int,
            v,
        ) <==> depends_on(entries, u, v),
{
    let outputs = entries[u.0 as int].callback.outputs@;
    if fed_by_first(entries, outputs, outputs.len() as int, v) {
        let k = choose|k: int|
            0 <= k < outputs.len() && k < outputs.len() && reads(entries, v, #[trigger] outputs[k]);
        assert(outputs.contains(outputs[k]));
        assert(writes(entries, u, outputs[k]));
    }
    if depends_on(entries, u, v) {
        let x = choose|x: I| #[trigger] writes(entries, u, x) && reads(entries, v, x);
        let k = choose|k: int| 0 <= k < outputs.len() && outputs[k] == x;
        assert(reads(entries, v, outputs[k]));
    }
}

/// Builds, for every callback, the list of the callbacks that depend on it.
pub fn build_dependents<I: Hash + Eq + Copy, F>(
    callbacks: &Vec<CallbackWithId<I, F>>,
    index: &HashMap<I, Vec<CallbackId>>,
) -> (dependents: Vec<Vec<CallbackId>>)
    requires
        vstd::std_specs::hash::obeys_key_model::<I>(),
        is_input_index(callbacks@, index@),
    ensures
        is_dependents_table(callbacks@, dependents@),
{
    let n = callbacks.len();
    let mut dependents: Vec<Vec<CallbackId>> = Vec::new();
    let mut u: usize = 0;
    while u < n
        invariant
            vstd::std_specs::hash::obeys_key_model::<I>(),
            is_input_index(callbacks@, index@),
            n == callbacks@.len(),
            0 <= u <= n,
            dependents@.len() == u,
            forall|a: int, v: CallbackId|
                0 <= a < u ==> (#[trigger] dependents@[a]@.contains(v) <==> depends_on(
                    callbacks@,
                    CallbackId(a as usize),
                    v,
                )),
            forall|a: int|
                0 <= a < u ==> (#[trigger] dependents@[a])@ == dependents_of(
                    callbacks@,
                    CallbackId(a as usize),
                ),
        decreases n - u,
    {
        let deps = collect_dependents(callbacks, index, u);
        dependents.push(deps);
        u += 1;
    }
    proof {
        let entries = callbacks@;
        assert forall|a: CallbackId, b: CallbackId| #[trigger]
            toposort::has_arc(dependents@, a, b) <==> depends_on(entries, a, b) by {
            if a.0 < n {
                assert(CallbackId(a.0 as int as usize) == a);
                assert(dependents@[a.0 as int]@.contains(b) <==> depends_on(entries, a, b));
            }
            if depends_on(entries, a, b) {
                let x = choose|x: I| #[trigger] writes(entries, a, x) && reads(entries, b, x);
                assert(a.0 < n && b.0 < n);
            }
        }
        assert forall|a: int, k: int|
            0 <= a < dependents@.len() && 0 <= k < dependents@[a]@.len() implies (
        #[trigger] dependents@[a]@[k]).0 < dependents@.len() by {
            let b = dependents@[a]@[k];
            assert(dependents@[a]@.contains(b));
            assert(depends_on(entries, CallbackId(a as usize), b));
            let x = choose|x: I| #[trigger]
                writes(entries, CallbackId(a as usize), x) && reads(entries, b, x);
        }
        assert forall|a: CallbackId| a.0 < dependents@.len() implies (
        #[trigger] dependents@[a.0 as int])@ == dependents_of(entries, a) by {
            assert(CallbackId(a.0 as int as usize) == a);
        }
    }
    dependents
}

/// Turns the table of dependents round: the result lists for every callback
/// the callbacks that it is a dependent of.
pub fn build_ancestors(dependents: &Vec<Vec<CallbackId>>) -> (ancestors: Vec<Vec<CallbackId>>)
    requires
        toposort::adjacency_closed(dependents@),
    ensures
        ancestors@.len() == dependents@.len(),
        toposort::adjacency_closed(ancestors@),
        forall|u: CallbackId, v: CallbackId| #[trigger]
            toposort::has_arc(ancestors@, v, u) <==> toposort::has_arc(dependents@, u, v),
        forall|v: CallbackId|
            v.0 < ancestors@.len() ==> (#[trigger] ancestors@[v.0 as int])@ == ancestors_among(
                dependents@,
                dependents@.len(),
                v,
            ),
{
    let n = dependents.len();
    let mut ancestors: Vec<Vec<CallbackId>> = Vec::new();
    let mut i: usize = 0;
    while i < n
        invariant
            0 <= i <= n,
            ancestors@.len() == i,
            forall|k: int| 0 <= k < i ==> (#[trigger] ancestors@[k])@.len() == 0,
        decreases n - i,
    {
        ancestors.push(Vec::new());
        i += 1;
    }
    let mut u: usize = 0;
    proof {
        assert forall|b: CallbackId| b.0 < n implies (#[trigger] ancestors@[b.0 as int])@
            == ancestors_among(dependents@, 0, b) by {
            assert(ancestors@[b.0 as int]@ =~= Seq::<CallbackId>::empty());
        }
    }
    while u < n
        invariant
            n == dependents@.len(),
            toposort::adjacency_closed(dependents@),
            0 <= u <= n,
            ancestors@.len() == n,
            forall|a: CallbackId, b: CallbackId|
                b.0 < n ==> (#[trigger] ancestors@[b.0 as int]@.contains(a) <==> (a.0 < u
                    && toposort::has_arc(dependents@, a, b))),
            forall|b: CallbackId|
                b.0 < n ==> (#[trigger] ancestors@[b.0 as int])@ == ancestors_among(
                    dependents@,
                    u as nat,
                    b,
                ),
        decreases n - u,
    {
        let id = CallbackId(u);
        let len = dependents[u].len();
        let mut k: usize = 0;
        proof {
            assert(dependents@[u as int]@.take(0) =~= Seq::<CallbackId>::empty());
            assert forall|b: CallbackId| b.0 < n implies (#[trigger] ancestors@[b.0 as int])@
                == ancestors_among(dependents@, u as nat, b) + once_per_match(
                dependents@[u as int]@.take(0),
                b,
                id,
            ) by {
                let base = ancestors_among(dependents@, u as nat, b);
                assert(base =~= base + Seq::<CallbackId>::empty());
            }
        }
        while k < len
            invariant
                n == dependents@.len(),
                toposort::adjacency_closed(dependents@),
                0 <= u < n,
                id == CallbackId(u),
                len == dependents@[u as int]@.len(),
                0 <= k <= len,
                ancestors@.len() == n,
                forall|a: CallbackId, b: CallbackId|
                    b.0 < n ==> (#[trigger] ancestors@[b.0 as int]@.contains(a) <==> ((a.0 < u
                        && toposort::has_arc(dependents@, a, b)) || (a == id && among_first(
                        dependents@[u as int]@,
                        k as int,
                        b,
                    )))),
                forall|b: CallbackId|
                    b.0 < n ==> (#[trigger] ancestors@[b.0 as int])@ == ancestors_among(
                        dependents@,
                        u as nat,
                        b,
                    ) + once_per_match(dependents@[u as int]@.take(k as int), b, id),
            decreases len - k,
        {
            let v = dependents[u][k];
            assert(v == dependents@[u as int]@[k as int]);
            assert(v.0 < n);
            let ghost before = ancestors@;
            ancestors[v.0].push(id);
            proof {
                assert forall|a: CallbackId, b: CallbackId| b.0 < n implies (
                #[trigger] ancestors@[b.0 as int]@.contains(a) <==> ((a.0 < u && toposort::has_arc(
                    dependents@,
                    a,
                    b,
                )) || (a == id && among_first(dependents@[u as int]@, k + 1, b)))) by {
                    lemma_among_next(dependents@[u as int]@, k as int, b);
                    assert(before[b.0 as int]@.contains(a) <==> ((a.0 < u && toposort::has_arc(
                        dependents@,
                        a,
                        b,
                    )) || (a == id && among_first(dependents@[u as int]@, k as int, b))));
                    if b == v {
                        lemma_push_contains(before[v.0 as int]@, id, a);
                    } else {
                        assert(ancestors@[b.0 as int] == before[b.0 as int]);
                    }
                }
                assert forall|b: CallbackId| b.0 < n implies (#[trigger] ancestors@[b.0 as int])@
                    == ancestors_among(dependents@, u as nat, b) + once_per_match(
                    dependents@[u as int]@.take(k + 1),
                    b,
                    id,
                ) by {
                    lemma_once_per_match_next(dependents@[u as int]@, k as int, b, id);
                    let base = ancestors_among(dependents@, u as nat, b);
                    let sofar = once_per_match(dependents@[u as int]@.take(k as int), b, id);
                    assert(before[b.0 as int]@ == base + sofar);
                    if b == v {
                        assert((base + sofar).push(id) =~= base + (sofar + seq![id]));
                    } else {
                        assert(ancestors@[b.0 as int] == before[b.0 as int]);
                        assert(base + sofar =~= base + (sofar + Seq::<CallbackId>::empty()));
                    }
                }
            }
            k += 1;
        }
        proof {
            assert forall|a: CallbackId, b: CallbackId| b.0 < n implies (
            #[trigger] ancestors@[b.0 as int]@.contains(a) <==> (a.0 < u + 1 && toposort::has_arc(
                dependents@,
                a,
                b,
            ))) by {
                lemma_among_all(dependents@[u as int]@, b);
            }
            assert(dependents@[u as int]@.take(len as int) =~= dependents@[u as int]@);
        }
        u += 1;
    }
    proof {
        assert forall|a: int, k: int|
            0 <= a < ancestors@.len() && 0 <= k < ancestors@[a]@.len() implies (
        #[trigger] ancestors@[a]@[k]).0 < ancestors@.len() by {
            let b = CallbackId(a as usize);
            let c = ancestors@[a]@[k];
            assert(ancestors@[b.0 as int]@.contains(c));
        }
    }
    ancestors
}

/// Numbers the callbacks by their position in `order`.
pub fn ranks_from_order(order: &Vec<CallbackId>) -> (rank: Vec<usize>)
    requires
        order@.no_duplicates(),
        forall|i: int| 0 <= i < order@.len() ==> (#[trigger] order@[i]).0 < order@.len(),
    ensures
        rank@.len() == order@.len(),
        forall|r: int| 0 <= r < order@.len() ==> rank@[(#[trigger] order@[r]).0 as int] == r,
{
    let n = order.len();
    let mut rank: Vec<usize> = Vec::new();
    let mut i: usize = 0;
    while i < n
        invariant
            0 <= i <= n,
            rank@.len() == i,
        decreases n - i,
    {
        rank.push(0);
        i += 1;
    }
    let mut r: usize = 0;
    while r < n
        invariant
            n == order@.len(),
            order@.no_duplicates(),
            forall|i: int| 0 <= i < order@.len() ==> (#[trigger] order@[i]).0 < order@.len(),
            0 <= r <= n,
            rank@.len() == n,
            forall|q: int| 0 <= q < r ==> rank@[(#[trigger] order@[q]).0 as int] == q,
        decreases n - r,
    {
        let id = order[r];
        assert(id == order@[r as int]);
        rank[id.0] = r;
        proof {
            assert forall|q: int| 0 <= q < r + 1 implies rank@[(#[trigger] order@[q]).0 as int]
                == q by {
                if q < r {
                    assert(order@[q] != order@[r as int]);
                }
            }
        }
        r += 1;
    }
    rank
}

/// Positions in a topological order are a topological rank.
pub proof fn lemma_order_gives_rank(
    adj: Seq<Vec<CallbackId>>,
    order: Seq<CallbackId>,
    rank: Seq<usize>,
)
    requires
        toposort::is_topological_order(adj, order),
        rank.len() == order.len(),
        forall|r: int| 0 <= r < order.len() ==> rank[(#[trigger] order[r]).0 as int] == r,
    ensures
        toposort::is_topological_rank(adj, rank),
        forall|v: CallbackId| v.0 < adj.len() ==> order[rank[v.0 as int] as int] == v,
{
    assert forall|v: CallbackId| v.0 < adj.len() implies rank[v.0 as int] < rank.len() && order[rank[v.0 as int] as int]
        == v by {
        assert(order.contains(v));
        let r = choose|r: int| 0 <= r < order.len() && order[r] == v;
        assert(rank[order[r].0 as int] == r);
    }
    assert forall|u: CallbackId, v: CallbackId|
        u.0 < rank.len() && v.0 < rank.len() && u != v implies #[trigger] rank[u.0 as int]
        != #[trigger] rank[v.0 as int] by {
        assert(order[rank[u.0 as int] as int] == u);
        assert(order[rank[v.0 as int] as int] == v);
    }
    assert forall|u: CallbackId, v: CallbackId| #[trigger] toposort::has_arc(adj, u, v) implies rank[u.0 as int]
        < rank[v.0 as int] by {
        let i = rank[u.0 as int] as int;
        let j = rank[v.0 as int] as int;
        assert(order[i] == u);
        assert(order[j] == v);
        assert(toposort::has_arc(adj, order[i], order[j]));
    }
}

} // verus!
