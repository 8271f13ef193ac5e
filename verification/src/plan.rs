//! What an execution plan is: which callbacks an update reaches, and which
//! of the three phases each of them belongs to.

use vstd::prelude::*;
use crate::callback::CallbackId;
use crate::registry::CallbacksContainer;

verus! {

/// The ordered run for one batch of updates, split by location.
pub struct ExecutionPlan {
    // Callbacks to run locally before the remote ones.
    pub client_pre_plan: Vec<CallbackId>,
    // Callbacks to run on the remote executor.
    pub server_plan: Vec<CallbackId>,
    // Callbacks to run locally after the remote ones.
    pub client_post_plan: Vec<CallbackId>,
}

impl ExecutionPlan {
    /// A plan with three empty phases.
    pub fn new() -> (plan: ExecutionPlan)
        ensures
            plan.client_pre_plan@.len() == 0,
            plan.server_plan@.len() == 0,
            plan.client_post_plan@.len() == 0,
    {
        ExecutionPlan {
            client_pre_plan: Vec::new(),
            server_plan: Vec::new(),
            client_post_plan: Vec::new(),
        }
    }
}

/// The phase of a plan that a callback runs in.
#[derive(Clone, Copy, Debug, PartialEq, Eq, Structural)]
pub enum Phase {
    PreLocal,
    Remote,
    PostLocal,
}

/// Callback `id` reads one of the updated identifiers.
pub open spec fn is_seed<I, F>(c: &CallbacksContainer<I, F>, updated: Set<I>, id: CallbackId) -> bool {
    exists|x: I| updated.contains(x) && #[trigger] c.is_triggered_by(id, x)
}

/// Callback `id` reads an updated identifier, or depends, directly or
/// through others, on a callback that does.
pub open spec fn must_run<I, F>(c: &CallbacksContainer<I, F>, updated: Set<I>, id: CallbackId) -> bool {
    exists|walk: Seq<CallbackId>| #[trigger]
        c.is_dependency_walk(walk) && is_seed(c, updated, walk.first()) && walk.last() == id
}

/// A dependency walk through callbacks that must run.
pub open spec fn is_plan_walk<I, F>(
    c: &CallbacksContainer<I, F>,
    updated: Set<I>,
    walk: Seq<CallbackId>,
) -> bool {
    &&& c.is_dependency_walk(walk)
    &&& forall|i: int| 0 <= i < walk.len() ==> must_run(c, updated, #[trigger] walk[i])
}

/// No callback of `walk` is bound to the remote executor.
pub open spec fn all_local<I, F>(c: &CallbacksContainer<I, F>, walk: Seq<CallbackId>) -> bool {
    forall|i: int| 0 <= i < walk.len() ==> !c.callback(#[trigger] walk[i]).is_remote()
}

/// Neither `id` nor anything that it depends on within the plan is remote.
pub open spec fn upstream_local<I, F>(
    c: &CallbacksContainer<I, F>,
    updated: Set<I>,
    id: CallbackId,
) -> bool {
    forall|walk: Seq<CallbackId>| #[trigger]
        is_plan_walk(c, updated, walk) && walk.last() == id ==> all_local(c, walk)
}

/// Neither `id` nor anything within the plan that depends on it is remote.
pub open spec fn downstream_local<I, F>(
    c: &CallbacksContainer<I, F>,
    updated: Set<I>,
    id: CallbackId,
) -> bool {
    forall|walk: Seq<CallbackId>| #[trigger]
        is_plan_walk(c, updated, walk) && walk.first() == id ==> all_local(c, walk)
}

/// The phase that callback `id` runs in: a remote callback in the remote
/// phase; a local one before it if nothing upstream is remote, else after
/// it if nothing downstream is remote, else with the remote ones.
pub open spec fn phase_of<I, F>(c: &CallbacksContainer<I, F>, updated: Set<I>, id: CallbackId) -> Phase {
    if c.callback(id).is_remote() {
        Phase::Remote
    } else if upstream_local(c, updated, id) {
        Phase::PreLocal
    } else if downstream_local(c, updated, id) {
        Phase::PostLocal
    } else {
        Phase::Remote
    }
}

/// The ranks of `ids` grow strictly from each entry to the next.
pub open spec fn rank_sorted<I, F>(c: &CallbacksContainer<I, F>, ids: Seq<CallbackId>) -> bool {
    forall|i: int, j: int|
        0 <= i < j < ids.len() ==> c.rank_of(#[trigger] ids[i]) < c.rank_of(#[trigger] ids[j])
}

/// `ids` holds, by growing rank, exactly the callbacks that must run in `phase`.
pub open spec fn is_phase<I, F>(
    c: &CallbacksContainer<I, F>,
    updated: Set<I>,
    ids: Seq<CallbackId>,
    phase: Phase,
) -> bool {
    &&& rank_sorted(c, ids)
    &&& forall|id: CallbackId| #[trigger]
        ids.contains(id) <==> (c.contains(id) && must_run(c, updated, id) && phase_of(
            c,
            updated,
            id,
        ) == phase)
}

/// `plan` is the plan for the update of the identifiers `updated`.
pub open spec fn is_execution_plan<I, F>(
    c: &CallbacksContainer<I, F>,
    updated: Set<I>,
    plan: ExecutionPlan,
) -> bool {
    &&& is_phase(c, updated, plan.client_pre_plan@, Phase::PreLocal)
    &&& is_phase(c, updated, plan.server_plan@, Phase::Remote)
    &&& is_phase(c, updated, plan.client_post_plan@, Phase::PostLocal)
}

/// The three phases of a plan have no callback in common.
pub proof fn lemma_phases_are_disjoint<I, F>(
    c: &CallbacksContainer<I, F>,
    updated: Set<I>,
    plan: ExecutionPlan,
    id: CallbackId,
)
    requires
        is_execution_plan(c, updated, plan),
    ensures
        !(plan.client_pre_plan@.contains(id) && plan.server_plan@.contains(id)),
        !(plan.client_pre_plan@.contains(id) && plan.client_post_plan@.contains(id)),
        !(plan.server_plan@.contains(id) && plan.client_post_plan@.contains(id)),
{
}

/// Together the three phases hold exactly the callbacks that read an
/// updated identifier and everything that depends on them.
pub proof fn lemma_phases_cover_the_reachable<I, F>(
    c: &CallbacksContainer<I, F>,
    updated: Set<I>,
    plan: ExecutionPlan,
    id: CallbackId,
)
    requires
        is_execution_plan(c, updated, plan),
    ensures
        (plan.client_pre_plan@.contains(id) || plan.server_plan@.contains(id)
            || plan.client_post_plan@.contains(id)) <==> (c.contains(id) && must_run(
            c,
            updated,
            id,
        )),
{
}

/// Within each phase the callbacks stand by growing rank.
pub proof fn lemma_phases_are_rank_sorted<I, F>(
    c: &CallbacksContainer<I, F>,
    updated: Set<I>,
    plan: ExecutionPlan,
)
    requires
        is_execution_plan(c, updated, plan),
    ensures
        rank_sorted(c, plan.client_pre_plan@),
        rank_sorted(c, plan.server_plan@),
        rank_sorted(c, plan.client_post_plan@),
{
}

/// A remote callback that must run stands in the remote phase and in no other.
pub proof fn lemma_remote_runs_remotely<I, F>(
    c: &CallbacksContainer<I, F>,
    updated: Set<I>,
    plan: ExecutionPlan,
    id: CallbackId,
)
    requires
        is_execution_plan(c, updated, plan),
        c.contains(id),
        c.callback(id).is_remote(),
    ensures
        must_run(c, updated, id) ==> plan.server_plan@.contains(id),
        !plan.client_pre_plan@.contains(id),
        !plan.client_post_plan@.contains(id),
{
}

/// Two lists of registered callbacks that stand by growing rank and hold
/// the same callbacks are the same list.
pub proof fn lemma_rank_sorted_lists_agree<I, F>(
    c: &CallbacksContainer<I, F>,
    left: Seq<CallbackId>,
    right: Seq<CallbackId>,
)
    requires
        c.ranks_are_topological(),
        rank_sorted(c, left),
        rank_sorted(c, right),
        forall|id: CallbackId| left.contains(id) <==> right.contains(id),
        forall|i: int| 0 <= i < left.len() ==> c.contains(#[trigger] left[i]),
    ensures
        left == right,
    decreases left.len(),
{
    if left.len() == 0 {
        if right.len() > 0 {
            assert(right.contains(right[0]));
        }
        assert(left =~= right);
    } else {
        let a = left.last();
        assert(left.contains(a));
        assert(right.contains(a));
        let b = right.last();
        assert(right.contains(b));
        assert(left.contains(b));
        let ia = choose|i: int| 0 <= i < right.len() && right[i] == a;
        let ib = choose|i: int| 0 <= i < left.len() && left[i] == b;
        assert(c.contains(left[ib]));
        // Each of the two last callbacks ranks no lower than the other.
        if ia < right.len() - 1 {
            assert(c.rank_of(right[ia]) < c.rank_of(right[right.len() - 1]));
        }
        if ib < left.len() - 1 {
            assert(c.rank_of(left[ib]) < c.rank_of(left[left.len() - 1]));
        }
        assert(a == b);
        let shorter_left = left.drop_last();
        let shorter_right = right.drop_last();
        assert forall|id: CallbackId| shorter_left.contains(id) <==> shorter_right.contains(
            id,
        ) by {
            if shorter_left.contains(id) {
                let i = choose|i: int| 0 <= i < shorter_left.len() && shorter_left[i] == id;
                assert(left[i] == id);
                assert(c.rank_of(left[i]) < c.rank_of(left[left.len() - 1]));
                assert(left.contains(id));
                let j = choose|j: int| 0 <= j < right.len() && right[j] == id;
                assert(j < right.len() - 1);
                assert(shorter_right[j] == id);
            }
            if shorter_right.contains(id) {
                let j = choose|j: int| 0 <= j < shorter_right.len() && shorter_right[j] == id;
                assert(right[j] == id);
                assert(c.rank_of(right[j]) < c.rank_of(right[right.len() - 1]));
                assert(right.contains(id));
                let i = choose|i: int| 0 <= i < left.len() && left[i] == id;
                assert(i < left.len() - 1);
                assert(shorter_left[i] == id);
            }
        }
        assert forall|i: int, j: int| 0 <= i < j < shorter_left.len() implies c.rank_of(
            #[trigger] shorter_left[i],
        ) < c.rank_of(#[trigger] shorter_left[j]) by {
            assert(shorter_left[i] == left[i] && shorter_left[j] == left[j]);
        }
        assert forall|i: int, j: int| 0 <= i < j < shorter_right.len() implies c.rank_of(
            #[trigger] shorter_right[i],
        ) < c.rank_of(#[trigger] shorter_right[j]) by {
            assert(shorter_right[i] == right[i] && shorter_right[j] == right[j]);
        }
        assert forall|i: int| 0 <= i < shorter_left.len() implies c.contains(
            #[trigger] shorter_left[i],
        ) by {
            assert(shorter_left[i] == left[i]);
        }
        lemma_rank_sorted_lists_agree(c, shorter_left, shorter_right);
        assert(left =~= shorter_left.push(a));
        assert(right =~= shorter_right.push(b));
    }
}

/// An update has one plan: two plans for the same update hold the same
/// callbacks in the same order in each phase.
pub proof fn lemma_plan_is_unique<I, F>(
    c: &CallbacksContainer<I, F>,
    updated: Set<I>,
    first: ExecutionPlan,
    second: ExecutionPlan,
)
    requires
        c.ranks_are_topological(),
        is_execution_plan(c, updated, first),
        is_execution_plan(c, updated, second),
    ensures
        first.client_pre_plan@ == second.client_pre_plan@,
        first.server_plan@ == second.server_plan@,
        first.client_post_plan@ == second.client_post_plan@,
{
    lemma_phase_is_unique(c, updated, first.client_pre_plan@, second.client_pre_plan@, Phase::PreLocal);
    lemma_phase_is_unique(c, updated, first.server_plan@, second.server_plan@, Phase::Remote);
    lemma_phase_is_unique(
        c,
        updated,
        first.client_post_plan@,
        second.client_post_plan@,
        Phase::PostLocal,
    );
}

/// A phase of an update is one list of callbacks.
pub proof fn lemma_phase_is_unique<I, F>(
    c: &CallbacksContainer<I, F>,
    updated: Set<I>,
    first: Seq<CallbackId>,
    second: Seq<CallbackId>,
    phase: Phase,
)
    requires
        c.ranks_are_topological(),
        is_phase(c, updated, first, phase),
        is_phase(c, updated, second, phase),
    ensures
        first == second,
{
    assert forall|i: int| 0 <= i < first.len() implies c.contains(#[trigger] first[i]) by {
        assert(first.contains(first[i]));
    }
    assert forall|id: CallbackId| first.contains(id) <==> second.contains(id) by {}
    lemma_rank_sorted_lists_agree(c, first, second);
}

/// A callback that reads an updated identifier must run.
pub proof fn lemma_seed_must_run<I, F>(c: &CallbacksContainer<I, F>, updated: Set<I>, id: CallbackId)
    requires
        is_seed(c, updated, id),
    ensures
        must_run(c, updated, id),
        c.contains(id),
{
    let walk = seq![id];
    assert(walk[0] == id);
    assert(c.is_dependency_walk(walk));
    assert(walk.first() == id && walk.last() == id);
}

/// A dependent of a callback that must run must run too.
pub proof fn lemma_dependent_must_run<I, F>(
    c: &CallbacksContainer<I, F>,
    updated: Set<I>,
    u: CallbackId,
    v: CallbackId,
)
    requires
        must_run(c, updated, u),
        c.depends_on(u, v),
    ensures
        must_run(c, updated, v),
        c.contains(u),
        c.contains(v),
{
    let walk = choose|walk: Seq<CallbackId>| #[trigger]
        c.is_dependency_walk(walk) && is_seed(c, updated, walk.first()) && walk.last() == u;
    let longer = walk.push(v);
    assert(c.contains(v));
    assert forall|i: int| 0 <= i < longer.len() - 1 implies c.depends_on(
        #[trigger] longer[i],
        longer[i + 1],
    ) by {
        if i < walk.len() - 1 {
            assert(longer[i] == walk[i]);
            assert(longer[i + 1] == walk[i + 1]);
        }
    }
    assert forall|i: int| 0 <= i < longer.len() implies c.contains(#[trigger] longer[i]) by {
        if i < walk.len() {
            assert(longer[i] == walk[i]);
        }
    }
    assert(c.is_dependency_walk(longer));
    assert(longer.first() == walk.first());
    assert(longer.last() == v);
}

/// A set of callbacks that holds the seeds and is closed under dependents
/// holds every callback that must run.
pub proof fn lemma_closed_set_is_complete<I, F>(
    c: &CallbacksContainer<I, F>,
    updated: Set<I>,
    reached: Set<CallbackId>,
    id: CallbackId,
)
    requires
        forall|s: CallbackId| is_seed(c, updated, s) ==> reached.contains(s),
        forall|u: CallbackId, v: CallbackId|
            reached.contains(u) && #[trigger] c.depends_on(u, v) ==> reached.contains(v),
        must_run(c, updated, id),
    ensures
        reached.contains(id),
{
    let walk = choose|walk: Seq<CallbackId>| #[trigger]
        c.is_dependency_walk(walk) && is_seed(c, updated, walk.first()) && walk.last() == id;
    lemma_walk_stays_inside(c, reached, walk, walk.len() - 1);
}

/// A dependency walk that starts inside a set that is closed under
/// dependents stays inside it.
proof fn lemma_walk_stays_inside<I, F>(
    c: &CallbacksContainer<I, F>,
    reached: Set<CallbackId>,
    walk: Seq<CallbackId>,
    k: int,
)
    requires
        c.is_dependency_walk(walk),
        reached.contains(walk.first()),
        forall|u: CallbackId, v: CallbackId|
            reached.contains(u) && #[trigger] c.depends_on(u, v) ==> reached.contains(v),
        0 <= k < walk.len(),
    ensures
        reached.contains(walk[k]),
    decreases k,
{
    if k > 0 {
        lemma_walk_stays_inside(c, reached, walk, k - 1);
        assert(c.depends_on(walk[k - 1], walk[k]));
    }
}

/// A callback that must run is, alone, a walk through the plan.
pub proof fn lemma_single_walk<I, F>(c: &CallbacksContainer<I, F>, updated: Set<I>, id: CallbackId)
    requires
        c.contains(id),
        must_run(c, updated, id),
    ensures
        is_plan_walk(c, updated, seq![id]),
        seq![id].first() == id,
        seq![id].last() == id,
{
    let walk = seq![id];
    assert(walk[0] == id);
}

/// A walk through the plan goes on to a dependent of its last callback.
pub proof fn lemma_extend_walk<I, F>(
    c: &CallbacksContainer<I, F>,
    updated: Set<I>,
    walk: Seq<CallbackId>,
    v: CallbackId,
)
    requires
        is_plan_walk(c, updated, walk),
        c.depends_on(walk.last(), v),
    ensures
        is_plan_walk(c, updated, walk.push(v)),
        walk.push(v).last() == v,
        walk.push(v).first() == walk.first(),
        all_local(c, walk.push(v)) ==> all_local(c, walk),
{
    let longer = walk.push(v);
    lemma_dependent_must_run(c, updated, walk.last(), v);
    assert forall|i: int| 0 <= i < longer.len() - 1 implies c.depends_on(
        #[trigger] longer[i],
        longer[i + 1],
    ) by {
        if i < walk.len() - 1 {
            assert(longer[i] == walk[i]);
            assert(longer[i + 1] == walk[i + 1]);
        }
    }
    assert forall|i: int| 0 <= i < longer.len() implies c.contains(#[trigger] longer[i])
        && must_run(c, updated, longer[i]) by {
        if i < walk.len() {
            assert(longer[i] == walk[i]);
        }
    }
    if all_local(c, longer) {
        assert forall|i: int| 0 <= i < walk.len() implies !c.callback(
            #[trigger] walk[i],
        ).is_remote() by {
            assert(longer[i] == walk[i]);
        }
    }
}

/// A walk through the plan can start one step earlier, at a callback that
/// must run and that its first callback depends on.
pub proof fn lemma_prepend_walk<I, F>(
    c: &CallbacksContainer<I, F>,
    updated: Set<I>,
    u: CallbackId,
    walk: Seq<CallbackId>,
)
    requires
        is_plan_walk(c, updated, walk),
        must_run(c, updated, u),
        c.depends_on(u, walk.first()),
    ensures
        is_plan_walk(c, updated, seq![u] + walk),
        (seq![u] + walk).first() == u,
        (seq![u] + walk).last() == walk.last(),
        all_local(c, seq![u] + walk) ==> all_local(c, walk),
{
    let longer = seq![u] + walk;
    assert(longer[0] == u);
    assert forall|i: int| 1 <= i < longer.len() implies #[trigger] longer[i] == walk[i - 1] by {}
    assert forall|i: int| 0 <= i < longer.len() - 1 implies c.depends_on(
        #[trigger] longer[i],
        longer[i + 1],
    ) by {
        if i >= 1 {
            assert(longer[i] == walk[i - 1]);
            assert(longer[i + 1] == walk[i]);
            assert(c.depends_on(walk[i - 1], walk[i - 1 + 1]));
        } else {
            assert(longer[1] == walk[0]);
        }
    }
    assert forall|i: int| 0 <= i < longer.len() implies c.contains(#[trigger] longer[i])
        && must_run(c, updated, longer[i]) by {
        if i >= 1 {
            assert(longer[i] == walk[i - 1]);
        }
    }
    if all_local(c, longer) {
        assert forall|i: int| 0 <= i < walk.len() implies !c.callback(
            #[trigger] walk[i],
        ).is_remote() by {
            assert(longer[i + 1] == walk[i]);
        }
    }
}

/// A walk through the plan without its last step is one, and its last
/// callback depends on the one before.
pub proof fn lemma_walk_without_last<I, F>(
    c: &CallbacksContainer<I, F>,
    updated: Set<I>,
    walk: Seq<CallbackId>,
)
    requires
        is_plan_walk(c, updated, walk),
        walk.len() >= 2,
    ensures
        is_plan_walk(c, updated, walk.drop_last()),
        walk.drop_last().last() == walk[walk.len() - 2],
        c.depends_on(walk[walk.len() - 2], walk.last()),
        must_run(c, updated, walk[walk.len() - 2]),
        all_local(c, walk.drop_last()) && !c.callback(walk.last()).is_remote() ==> all_local(
            c,
            walk,
        ),
{
    let shorter = walk.drop_last();
    assert forall|i: int| 0 <= i < shorter.len() - 1 implies c.depends_on(
        #[trigger] shorter[i],
        shorter[i + 1],
    ) by {
        assert(shorter[i] == walk[i]);
        assert(shorter[i + 1] == walk[i + 1]);
    }
    assert forall|i: int| 0 <= i < shorter.len() implies c.contains(#[trigger] shorter[i])
        && must_run(c, updated, shorter[i]) by {
        assert(shorter[i] == walk[i]);
    }
    let k = walk.len() - 2;
    assert(c.depends_on(walk[k], walk[k + 1]));
    if all_local(c, shorter) && !c.callback(walk.last()).is_remote() {
        assert forall|i: int| 0 <= i < walk.len() implies !c.callback(
            #[trigger] walk[i],
        ).is_remote() by {
            if i < shorter.len() {
                assert(shorter[i] == walk[i]);
            }
        }
    }
}

/// A walk through the plan without its first step is one, and its second
/// callback depends on the first.
pub proof fn lemma_walk_without_first<I, F>(
    c: &CallbacksContainer<I, F>,
    updated: Set<I>,
    walk: Seq<CallbackId>,
)
    requires
        is_plan_walk(c, updated, walk),
        walk.len() >= 2,
    ensures
        is_plan_walk(c, updated, walk.drop_first()),
        walk.drop_first().first() == walk[1],
        c.depends_on(walk.first(), walk[1]),
        must_run(c, updated, walk[1]),
        all_local(c, walk.drop_first()) && !c.callback(walk.first()).is_remote() ==> all_local(
            c,
            walk,
        ),
{
    let shorter = walk.drop_first();
    assert forall|i: int| 0 <= i < shorter.len() implies #[trigger] shorter[i] == walk[i + 1] by {}
    assert forall|i: int| 0 <= i < shorter.len() - 1 implies c.depends_on(
        #[trigger] shorter[i],
        shorter[i + 1],
    ) by {
        assert(shorter[i] == walk[i + 1]);
        assert(shorter[i + 1] == walk[i + 2]);
        assert(c.depends_on(walk[i + 1], walk[i + 1 + 1]));
    }
    assert forall|i: int| 0 <= i < shorter.len() implies c.contains(#[trigger] shorter[i])
        && must_run(c, updated, shorter[i]) by {
        assert(shorter[i] == walk[i + 1]);
    }
    assert(c.depends_on(walk[0int], walk[0int + 1]));
    if all_local(c, shorter) && !c.callback(walk.first()).is_remote() {
        assert forall|i: int| 0 <= i < walk.len() implies !c.callback(
            #[trigger] walk[i],
        ).is_remote() by {
            if i >= 1 {
                assert(shorter[i - 1] == walk[i]);
            }
        }
    }
}

/// A local callback has nothing remote upstream exactly if none of the
/// callbacks in the plan that it depends on has.
pub proof fn lemma_upstream_step<I, F>(c: &CallbacksContainer<I, F>, updated: Set<I>, id: CallbackId)
    requires
        c.contains(id),
        must_run(c, updated, id),
    ensures
        upstream_local(c, updated, id) <==> (!c.callback(id).is_remote() && forall|a: CallbackId|
            must_run(c, updated, a) && #[trigger] c.depends_on(a, id) ==> upstream_local(
                c,
                updated,
                a,
            )),
{
    if upstream_local(c, updated, id) {
        lemma_single_walk(c, updated, id);
        assert(all_local(c, seq![id]));
        assert(seq![id][0] == id);
        assert forall|a: CallbackId|
            must_run(c, updated, a) && #[trigger] c.depends_on(a, id) implies upstream_local(
            c,
            updated,
            a,
        ) by {
            assert forall|walk: Seq<CallbackId>| #[trigger]
                is_plan_walk(c, updated, walk) && walk.last() == a implies all_local(c, walk) by {
                lemma_extend_walk(c, updated, walk, id);
                assert(is_plan_walk(c, updated, walk.push(id)));
            }
        }
    }
    if !c.callback(id).is_remote() && (forall|a: CallbackId|
        must_run(c, updated, a) && #[trigger] c.depends_on(a, id) ==> upstream_local(
            c,
            updated,
            a,
        )) {
        assert forall|walk: Seq<CallbackId>| #[trigger]
            is_plan_walk(c, updated, walk) && walk.last() == id implies all_local(c, walk) by {
            if walk.len() >= 2 {
                lemma_walk_without_last(c, updated, walk);
                let a = walk[walk.len() - 2];
                assert(c.depends_on(a, id));
                assert(upstream_local(c, updated, a));
                assert(is_plan_walk(c, updated, walk.drop_last()));
            } else {
                assert(walk[0] == id);
            }
        }
    }
}

/// A local callback has nothing remote downstream exactly if none of its
/// dependents has.
pub proof fn lemma_downstream_step<I, F>(
    c: &CallbacksContainer<I, F>,
    updated: Set<I>,
    id: CallbackId,
)
    requires
        c.contains(id),
        must_run(c, updated, id),
    ensures
        downstream_local(c, updated, id) <==> (!c.callback(id).is_remote() && forall|d: CallbackId| #[trigger]
            c.depends_on(id, d) ==> downstream_local(c, updated, d)),
{
    if downstream_local(c, updated, id) {
        lemma_single_walk(c, updated, id);
        assert(all_local(c, seq![id]));
        assert(seq![id][0] == id);
        assert forall|d: CallbackId| #[trigger] c.depends_on(id, d) implies downstream_local(
            c,
            updated,
            d,
        ) by {
            assert forall|walk: Seq<CallbackId>| #[trigger]
                is_plan_walk(c, updated, walk) && walk.first() == d implies all_local(c, walk) by {
                lemma_prepend_walk(c, updated, id, walk);
                assert(is_plan_walk(c, updated, seq![id] + walk));
            }
        }
    }
    if !c.callback(id).is_remote() && (forall|d: CallbackId| #[trigger]
        c.depends_on(id, d) ==> downstream_local(c, updated, d)) {
        assert forall|walk: Seq<CallbackId>| #[trigger]
            is_plan_walk(c, updated, walk) && walk.first() == id implies all_local(c, walk) by {
            if walk.len() >= 2 {
                lemma_walk_without_first(c, updated, walk);
                let d = walk[1];
                assert(c.depends_on(id, d));
                assert(downstream_local(c, updated, d));
                assert(is_plan_walk(c, updated, walk.drop_first()));
            } else {
                assert(walk[0] == id);
            }
        }
    }
}

} // verus!
