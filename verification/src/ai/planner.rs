use vstd::prelude::*;

use super::state::{is_apply, law_states_equal_by_lookups, satisfies_spec, unmet, val, Key, Value, WorldState};

verus! {

/// Largest number of nodes that one search takes off the open list.
pub const SEARCH_LIMIT: usize = 4096;

/// Something an agent can do: allowed where `pre` holds, and writes `effects`.
#[derive(Clone, Debug)]
pub struct Action {
    pub name: &'static str,
    pub cost: u32,
    pub pre: WorldState,
    pub effects: WorldState,
}

impl Action {
    /// Whether the action may run in `world`.
    pub fn available(&self, world: &WorldState) -> (r: bool)
        ensures
            r == satisfies_spec(world@, self.pre@),
    {
        world.satisfies(&self.pre)
    }
}

/// A desired world state with a priority; higher priorities are planned first.
#[derive(Clone, Debug)]
pub struct Goal {
    pub name: &'static str,
    pub desired: WorldState,
    pub priority: u32,
}

/// The actions that reach a goal, in order.
#[derive(Clone, Debug, PartialEq, Eq)]
pub struct Plan {
    pub goal: &'static str,
    pub steps: Vec<&'static str>,
    pub cost: u32,
}

/// How a search ended: with a plan, with every reachable state expanded and none meeting
/// the goal, or at the search limit.
#[derive(Debug)]
pub enum SearchEnd {
    Found(Plan),
    Exhausted,
    LimitPassed,
}

/// A set of actions and an A* search over world states.
pub struct Planner {
    actions: Vec<Action>,
}

impl View for Planner {
    type V = Seq<Action>;

    closed spec fn view(&self) -> Seq<Action> {
        self.actions@
    }
}

/// One step of a plan: `a` may run in `s`, and running it turns `s` into the different state `t`.
pub open spec fn step_ok(s: Seq<(Key, Value)>, a: Action, t: Seq<(Key, Value)>) -> bool {
    &&& satisfies_spec(s, a.pre@)
    &&& is_apply(s, a.effects@, t)
    &&& t != s
}

/// `states` is the sequence of states that running the actions `idxs` from `start` passes.
pub open spec fn is_path(
    actions: Seq<Action>,
    start: Seq<(Key, Value)>,
    idxs: Seq<int>,
    states: Seq<Seq<(Key, Value)>>,
) -> bool {
    &&& states.len() == idxs.len() + 1
    &&& states[0] == start
    &&& forall|i: int|
        0 <= i < idxs.len() ==> 0 <= #[trigger] idxs[i] < actions.len() && step_ok(
            states[i],
            actions[idxs[i]],
            states[i + 1],
        )
}

/// `p` is a plan for `goal` from `world`: its steps name actions that run one after another
/// from `world` into a state that satisfies the goal. Its cost is the cost of its first
/// action (0 for an empty plan).
pub open spec fn plan_for(actions: Seq<Action>, world: Seq<(Key, Value)>, goal: Goal, p: Plan) -> bool {
    &&& p.goal == goal.name
    &&& exists|idxs: Seq<int>, states: Seq<Seq<(Key, Value)>>|
        #![trigger is_path(actions, world, idxs, states)]
        {
            &&& is_path(actions, world, idxs, states)
            &&& satisfies_spec(states.last(), goal.desired@)
            &&& p.steps@.len() == idxs.len()
            &&& forall|i: int| 0 <= i < idxs.len() ==> p.steps@[i] == actions[idxs[i]].name
            &&& p.cost == (if idxs.len() == 0 { 0 } else { actions[idxs[0]].cost })
        }
}

/// A state the search has reached: its best known cost, and the state and action it was
/// reached from (none for the start).
struct Seen {
    state: WorldState,
    best: u64,
    came: Option<(WorldState, &'static str)>,
}

/// A state on the open list with its cost so far and its estimate to the goal.
struct Node {
    cost: u64,
    est: u64,
    state: WorldState,
}

spec fn pred_of(s: Seen) -> Seq<(Key, Value)> {
    match s.came {
        Some((p, _)) => p@,
        None => Seq::empty(),
    }
}

spec fn name_of(s: Seen) -> &'static str {
    match s.came {
        Some((_, n)) => n,
        None => "",
    }
}

/// Invariant of one reached state other than the start: it was reached by action `a`
/// from a state that is also reached, and that state is cheaper, or as cheap and recorded
/// earlier. A state reached from the start costs exactly its action.
spec fn entry_ok(
    actions: Seq<Action>,
    world: Seq<(Key, Value)>,
    seen: Seq<Seen>,
    stamps: Seq<int>,
    i: int,
    a: int,
) -> bool {
    &&& seen[i].came is Some
    &&& 0 <= a < actions.len()
    &&& actions[a].name == name_of(seen[i])
    &&& step_ok(pred_of(seen[i]), actions[a], seen[i].state@)
    &&& exists|j: int|
        #![trigger seen[j]]
        0 <= j < seen.len() && seen[j].state@ == pred_of(seen[i]) && (seen[j].best < seen[i].best
            || (seen[j].best == seen[i].best && stamps[j] < stamps[i]))
    &&& pred_of(seen[i]) == world ==> seen[i].best == actions[a].cost
}

spec fn seen_ok(
    actions: Seq<Action>,
    world: Seq<(Key, Value)>,
    seen: Seq<Seen>,
    acts: Seq<int>,
    stamps: Seq<int>,
    clock: int,
) -> bool {
    &&& seen.len() >= 1
    &&& acts.len() == seen.len()
    &&& stamps.len() == seen.len()
    &&& seen[0].state@ == world
    &&& seen[0].best == 0
    &&& seen[0].came is None
    &&& stamps[0] == 0
    &&& forall|i: int, j: int| 0 <= i < j < seen.len() ==> seen[i].state@ != seen[j].state@
    &&& forall|i: int| 0 <= i < seen.len() ==> 0 <= #[trigger] stamps[i] < clock
    &&& forall|i: int| 1 <= i < seen.len() ==> entry_ok(actions, world, seen, stamps, i, #[trigger] acts[i])
}

spec fn node_ok(seen: Seq<Seen>, world: Seq<(Key, Value)>, n: Node, iter: int) -> bool {
    &&& exists|j: int| #![trigger seen[j]] 0 <= j < seen.len() && seen[j].state@ == n.state@ && seen[j].best <= n.cost
    &&& n.state@ == world ==> n.cost == 0
    &&& n.cost <= iter * 0xFFFF_FFFF
}

/// From `world`, running available actions that change the state, one after another,
/// reaches a state where `desired` holds.
pub open spec fn reachable(actions: Seq<Action>, world: Seq<(Key, Value)>, desired: Seq<(Key, Value)>) -> bool {
    exists|idxs: Seq<int>, states: Seq<Seq<(Key, Value)>>|
        #![trigger is_path(actions, world, idxs, states)]
        is_path(actions, world, idxs, states) && satisfies_spec(states.last(), desired)
}

#[verifier::opaque]
spec fn in_seen(seen: Seq<Seen>, x: Seq<(Key, Value)>) -> bool {
    exists|j: int| 0 <= j < seen.len() && #[trigger] seen[j].state@ == x
}

/// Every action that can run in `x`, among the first `n`, leads to a reached state.
#[verifier::opaque]
spec fn closed_upto(actions: Seq<Action>, seen: Seq<Seen>, x: Seq<(Key, Value)>, n: int) -> bool {
    forall|a: int, t: Seq<(Key, Value)>|
        0 <= a < n && a < actions.len() && #[trigger] step_ok(x, actions[a], t) ==> in_seen(seen, t)
}

#[verifier::opaque]
spec fn in_open(heap: Seq<(u64, usize)>, arena: Seq<Node>, x: Seq<(Key, Value)>) -> bool {
    exists|e: (u64, usize)| #[trigger] heap.contains(e) && e.1 < arena.len() && arena[e.1 as int].state@ == x
}

/// Every reached state other than `cur` is still on the open list, or has all its
/// successors reached and does not meet the goal.
#[verifier::opaque]
spec fn settled(
    actions: Seq<Action>,
    desired: Seq<(Key, Value)>,
    seen: Seq<Seen>,
    heap: Seq<(u64, usize)>,
    arena: Seq<Node>,
    cur: Option<Seq<(Key, Value)>>,
) -> bool {
    forall|j: int|
        0 <= j < seen.len() && (cur is None || seen[j].state@ != cur->0) ==> in_open(
            heap,
            arena,
            #[trigger] seen[j].state@,
        ) || (closed_upto(actions, seen, seen[j].state@, actions.len() as int)
            && !satisfies_spec(seen[j].state@, desired))
}

/// `b` holds every state of `a`, and each of its own states is one of `a`'s or `next`.
spec fn seen_step(a: Seq<Seen>, b: Seq<Seen>, next: Seq<(Key, Value)>) -> bool {
    &&& forall|x: Seq<(Key, Value)>| in_seen(a, x) ==> #[trigger] in_seen(b, x)
    &&& in_seen(b, next)
    &&& forall|j: int| 0 <= j < b.len() ==> (#[trigger] b[j]).state@ == next || in_seen(a, b[j].state@)
}

proof fn lemma_in_seen(seen: Seq<Seen>, j: int)
    requires
        0 <= j < seen.len(),
    ensures
        in_seen(seen, seen[j].state@),
{
    reveal(in_seen);
}

proof fn lemma_seen_set(a: Seq<Seen>, j: int, e: Seen)
    requires
        0 <= j < a.len(),
        a[j].state@ == e.state@,
    ensures
        seen_step(a, a.update(j, e), e.state@),
{
    reveal(in_seen);
    let b = a.update(j, e);
    assert forall|x: Seq<(Key, Value)>| in_seen(a, x) implies #[trigger] in_seen(b, x) by {
        let i = choose|i: int| 0 <= i < a.len() && #[trigger] a[i].state@ == x;
        if i == j {
            assert(b[j].state@ == x);
        } else {
            assert(b[i] == a[i]);
        }
    }
    assert(b[j].state@ == e.state@);
    assert forall|i: int| 0 <= i < b.len() implies (#[trigger] b[i]).state@ == e.state@ || in_seen(a, b[i].state@) by {
        if i != j {
            assert(b[i] == a[i]);
        }
    }
}

proof fn lemma_seen_push(a: Seq<Seen>, e: Seen)
    ensures
        seen_step(a, a.push(e), e.state@),
{
    reveal(in_seen);
    let b = a.push(e);
    assert forall|x: Seq<(Key, Value)>| in_seen(a, x) implies #[trigger] in_seen(b, x) by {
        let i = choose|i: int| 0 <= i < a.len() && #[trigger] a[i].state@ == x;
        assert(b[i] == a[i]);
    }
    assert(b[a.len() as int].state@ == e.state@);
    assert forall|i: int| 0 <= i < b.len() implies (#[trigger] b[i]).state@ == e.state@ || in_seen(a, b[i].state@) by {
        if i < a.len() {
            assert(b[i] == a[i]);
        }
    }
}

proof fn lemma_apply_unique(s: Seq<(Key, Value)>, e: Seq<(Key, Value)>, t1: Seq<(Key, Value)>, t2: Seq<(Key, Value)>)
    requires
        is_apply(s, e, t1),
        is_apply(s, e, t2),
    ensures
        t1 == t2,
{
    assert forall|k: Key| val(t1, k) == val(t2, k) by {
        assert(val(t1, k) == (if val(e, k) != 0 { val(e, k) } else { val(s, k) }));
        assert(val(t2, k) == (if val(e, k) != 0 { val(e, k) } else { val(s, k) }));
    }
    law_states_equal_by_lookups(t1, t2);
}

/// After a pop of `x`, every reached state but the popped one is as settled as before.
proof fn lemma_settled_pop(
    actions: Seq<Action>,
    desired: Seq<(Key, Value)>,
    seen: Seq<Seen>,
    h1: Seq<(u64, usize)>,
    h2: Seq<(u64, usize)>,
    arena: Seq<Node>,
    x: (u64, usize),
)
    requires
        settled(actions, desired, seen, h1, arena, None),
        h1.to_multiset() == h2.to_multiset().insert(x),
        x.1 < arena.len(),
    ensures
        settled(actions, desired, seen, h2, arena, Some(arena[x.1 as int].state@)),
{
    broadcast use vstd::multiset::group_multiset_axioms;

    reveal(settled);
    let cur = arena[x.1 as int].state@;
    assert forall|j: int|
        0 <= j < seen.len() && (Some(cur) is None || seen[j].state@ != Some(cur)->0) implies in_open(
            h2,
            arena,
            #[trigger] seen[j].state@,
        ) || (closed_upto(actions, seen, seen[j].state@, actions.len() as int)
            && !satisfies_spec(seen[j].state@, desired)) by {
        if in_open(h1, arena, seen[j].state@) {
            reveal(in_open);
            let e = choose|e: (u64, usize)| #[trigger] h1.contains(e) && e.1 < arena.len() && arena[e.1 as int].state@ == seen[j].state@;
            assert(e != x);
            vstd::seq_lib::to_multiset_contains(h1, e);
            vstd::seq_lib::to_multiset_contains(h2, e);
            assert(h2.contains(e));
        }
    }
}

/// One action of `cur` handled: either it leads nowhere new (its successors were
/// already reached), or its successor `next` was recorded and put on the open list.
proof fn lemma_settled_step(
    actions: Seq<Action>,
    desired: Seq<(Key, Value)>,
    s1: Seq<Seen>,
    h1: Seq<(u64, usize)>,
    a1: Seq<Node>,
    s2: Seq<Seen>,
    h2: Seq<(u64, usize)>,
    a2: Seq<Node>,
    cur: Seq<(Key, Value)>,
    next: Seq<(Key, Value)>,
    item: (u64, usize),
)
    requires
        settled(actions, desired, s1, h1, a1, Some(cur)),
        seen_step(s1, s2, next),
        a2.len() == a1.len() + 1,
        forall|k: int| 0 <= k < a1.len() ==> a2[k] == a1[k],
        a2[a1.len() as int].state@ == next,
        item.1 == a1.len(),
        h2.to_multiset() == h1.to_multiset().insert(item),
    ensures
        settled(actions, desired, s2, h2, a2, Some(cur)),
        forall|n: int, x: Seq<(Key, Value)>|
            closed_upto(actions, s1, x, n) ==> #[trigger] closed_upto(actions, s2, x, n),
{
    broadcast use vstd::multiset::group_multiset_axioms;

    reveal(settled);
    assert forall|n: int, x: Seq<(Key, Value)>|
        closed_upto(actions, s1, x, n) implies #[trigger] closed_upto(actions, s2, x, n) by {
        reveal(closed_upto);
    }
    assert forall|j: int|
        0 <= j < s2.len() && (Some(cur) is None || s2[j].state@ != Some(cur)->0) implies in_open(
            h2,
            a2,
            #[trigger] s2[j].state@,
        ) || (closed_upto(actions, s2, s2[j].state@, actions.len() as int)
            && !satisfies_spec(s2[j].state@, desired)) by {
        let y = s2[j].state@;
        reveal(in_open);
        if y == next {
            vstd::seq_lib::to_multiset_contains(h2, item);
            assert(h2.contains(item));
        } else {
            assert(in_seen(s1, y));
            reveal(in_seen);
            let i = choose|i: int| 0 <= i < s1.len() && #[trigger] s1[i].state@ == y;
            assert(s1[i].state@ == y);
            if in_open(h1, a1, y) {
                let e = choose|e: (u64, usize)| #[trigger] h1.contains(e) && e.1 < a1.len() && a1[e.1 as int].state@ == y;
                vstd::seq_lib::to_multiset_contains(h1, e);
                vstd::seq_lib::to_multiset_contains(h2, e);
                assert(h2.contains(e));
                assert(a2[e.1 as int] == a1[e.1 as int]);
            } else {
                assert(closed_upto(actions, s1, y, actions.len() as int));
            }
        }
    }
}

/// `cur` has had all its actions handled: it is settled too.
proof fn lemma_settle_cur(
    actions: Seq<Action>,
    desired: Seq<(Key, Value)>,
    seen: Seq<Seen>,
    heap: Seq<(u64, usize)>,
    arena: Seq<Node>,
    cur: Seq<(Key, Value)>,
)
    requires
        settled(actions, desired, seen, heap, arena, Some(cur)),
        closed_upto(actions, seen, cur, actions.len() as int),
        !satisfies_spec(cur, desired),
    ensures
        settled(actions, desired, seen, heap, arena, None),
{
    reveal(settled);
}

/// Extending the handled actions of `cur` by one whose successors are all reached.
proof fn lemma_closed_next(actions: Seq<Action>, seen: Seq<Seen>, cur: Seq<(Key, Value)>, i: int)
    requires
        closed_upto(actions, seen, cur, i),
        0 <= i,
        forall|t: Seq<(Key, Value)>| i < actions.len() && step_ok(cur, actions[i], t) ==> in_seen(seen, t),
    ensures
        closed_upto(actions, seen, cur, i + 1),
{
    reveal(closed_upto);
}

proof fn lemma_path_in_seen(
    actions: Seq<Action>,
    desired: Seq<(Key, Value)>,
    seen: Seq<Seen>,
    arena: Seq<Node>,
    world: Seq<(Key, Value)>,
    idxs: Seq<int>,
    states: Seq<Seq<(Key, Value)>>,
    i: int,
)
    requires
        settled(actions, desired, seen, Seq::empty(), arena, None),
        in_seen(seen, world),
        is_path(actions, world, idxs, states),
        0 <= i <= idxs.len(),
    ensures
        in_seen(seen, states[i]),
    decreases i,
{
    if i > 0 {
        lemma_path_in_seen(actions, desired, seen, arena, world, idxs, states, i - 1);
        reveal(in_seen);
        reveal(settled);
        let j = choose|j: int| 0 <= j < seen.len() && #[trigger] seen[j].state@ == states[i - 1];
        assert(seen[j].state@ == states[i - 1]);
        assert(!in_open(Seq::empty(), arena, seen[j].state@)) by {
            reveal(in_open);
        }
        assert(closed_upto(actions, seen, states[i - 1], actions.len() as int));
        reveal(closed_upto);
        assert(step_ok(states[i - 1], actions[idxs[i - 1]], states[i]));
    }
}

/// With nothing left on the open list, no state where the goal holds can be reached.
proof fn lemma_exhausted(
    actions: Seq<Action>,
    desired: Seq<(Key, Value)>,
    seen: Seq<Seen>,
    arena: Seq<Node>,
    world: Seq<(Key, Value)>,
)
    requires
        settled(actions, desired, seen, Seq::empty(), arena, None),
        in_seen(seen, world),
    ensures
        !reachable(actions, world, desired),
{
    if reachable(actions, world, desired) {
        let (idxs, states) = choose|idxs: Seq<int>, states: Seq<Seq<(Key, Value)>>|
            #![trigger is_path(actions, world, idxs, states)]
            is_path(actions, world, idxs, states) && satisfies_spec(states.last(), desired);
        lemma_path_in_seen(actions, desired, seen, arena, world, idxs, states, idxs.len() as int);
        reveal(in_seen);
        reveal(settled);
        let j = choose|j: int| 0 <= j < seen.len() && #[trigger] seen[j].state@ == states[idxs.len() as int];
        assert(seen[j].state@ == states.last());
        assert(!in_open(Seq::empty(), arena, seen[j].state@)) by {
            reveal(in_open);
        }
    }
}

/// The total cost of running the actions `idxs` one after another.
pub open spec fn cost_of(actions: Seq<Action>, idxs: Seq<int>) -> int
    decreases idxs.len(),
{
    if idxs.len() == 0 {
        0
    } else {
        cost_of(actions, idxs.drop_last()) + actions[idxs.last()].cost
    }
}

/// A path from `world` that passes no state twice ends in `x` and costs `c`.
pub open spec fn simple_walk(actions: Seq<Action>, world: Seq<(Key, Value)>, x: Seq<(Key, Value)>, c: int) -> bool {
    exists|idxs: Seq<int>, states: Seq<Seq<(Key, Value)>>|
        #![trigger is_path(actions, world, idxs, states)]
        is_path(actions, world, idxs, states) && states.no_duplicates() && states.last() == x
            && cost_of(actions, idxs) == c
}

/// At least `n` different pairs of an end state and a cost are those of paths from
/// `world` that pass no state twice.
pub open spec fn many_simple_walks(actions: Seq<Action>, world: Seq<(Key, Value)>, n: nat) -> bool {
    exists|ps: Seq<(Seq<(Key, Value)>, int)>|
        ps.len() >= n && ps.no_duplicates() && forall|i: int|
            0 <= i < ps.len() ==> simple_walk(actions, world, #[trigger] ps[i].0, ps[i].1)
}

#[verifier::opaque]
spec fn best_at_most(seen: Seq<Seen>, x: Seq<(Key, Value)>, c: int) -> bool {
    exists|j: int| 0 <= j < seen.len() && #[trigger] seen[j].state@ == x && seen[j].best <= c
}

/// A node is reached along a path through distinct states, of the node's cost, and every
/// state on that path is recorded at no more than the cost of the path up to it.
#[verifier::opaque]
spec fn node_walk(actions: Seq<Action>, world: Seq<(Key, Value)>, seen: Seq<Seen>, n: Node) -> bool {
    exists|idxs: Seq<int>, states: Seq<Seq<(Key, Value)>>|
        #![trigger is_path(actions, world, idxs, states)]
        {
            &&& is_path(actions, world, idxs, states)
            &&& states.no_duplicates()
            &&& states.last() == n.state@
            &&& cost_of(actions, idxs) == n.cost
            &&& forall|p: int|
                0 <= p <= idxs.len() ==> best_at_most(seen, #[trigger] states[p], cost_of(actions, idxs.take(p)))
        }
}

#[verifier::opaque]
spec fn walks_ok(actions: Seq<Action>, world: Seq<(Key, Value)>, seen: Seq<Seen>, arena: Seq<Node>) -> bool {
    forall|k: int| 0 <= k < arena.len() ==> node_walk(actions, world, seen, #[trigger] arena[k])
}

/// Nodes of the same state are pushed at strictly falling costs.
#[verifier::opaque]
spec fn costs_drop(arena: Seq<Node>) -> bool {
    forall|a: int, b: int|
        0 <= a < b < arena.len() && #[trigger] arena[a].state@ == #[trigger] arena[b].state@ ==> arena[b].cost < arena[a].cost
}

/// `b` keeps, for every state of `a`, a cost no larger than `a` records.
spec fn improves(a: Seq<Seen>, b: Seq<Seen>) -> bool {
    forall|x: Seq<(Key, Value)>, c: int| best_at_most(a, x, c) ==> #[trigger] best_at_most(b, x, c)
}

proof fn lemma_improves_set(a: Seq<Seen>, j: int, e: Seen)
    requires
        0 <= j < a.len(),
        e.state@ == a[j].state@,
        e.best <= a[j].best,
    ensures
        improves(a, a.update(j, e)),
{
    reveal(best_at_most);
    let b = a.update(j, e);
    assert forall|x: Seq<(Key, Value)>, c: int| best_at_most(a, x, c) implies #[trigger] best_at_most(b, x, c) by {
        let i = choose|i: int| 0 <= i < a.len() && #[trigger] a[i].state@ == x && a[i].best <= c;
        if i == j {
            assert(b[j].state@ == x);
        } else {
            assert(b[i] == a[i]);
        }
    }
}

proof fn lemma_improves_push(a: Seq<Seen>, e: Seen)
    ensures
        improves(a, a.push(e)),
{
    reveal(best_at_most);
    let b = a.push(e);
    assert forall|x: Seq<(Key, Value)>, c: int| best_at_most(a, x, c) implies #[trigger] best_at_most(b, x, c) by {
        let i = choose|i: int| 0 <= i < a.len() && #[trigger] a[i].state@ == x && a[i].best <= c;
        assert(b[i] == a[i]);
    }
}

proof fn lemma_walks_persist(actions: Seq<Action>, world: Seq<(Key, Value)>, a: Seq<Seen>, b: Seq<Seen>, arena: Seq<Node>)
    requires
        walks_ok(actions, world, a, arena),
        improves(a, b),
    ensures
        walks_ok(actions, world, b, arena),
{
    reveal(walks_ok);
    assert forall|k: int| 0 <= k < arena.len() implies node_walk(actions, world, b, #[trigger] arena[k]) by {
        assert(node_walk(actions, world, a, arena[k]));
        reveal(node_walk);
        let (idxs, states) = choose|idxs: Seq<int>, states: Seq<Seq<(Key, Value)>>|
            #![trigger is_path(actions, world, idxs, states)]
            {
                &&& is_path(actions, world, idxs, states)
                &&& states.no_duplicates()
                &&& states.last() == arena[k].state@
                &&& cost_of(actions, idxs) == arena[k].cost
                &&& forall|p: int|
                    0 <= p <= idxs.len() ==> best_at_most(a, #[trigger] states[p], cost_of(actions, idxs.take(p)))
            };
        assert forall|p: int| 0 <= p <= idxs.len() implies best_at_most(b, #[trigger] states[p], cost_of(actions, idxs.take(p))) by {
            assert(best_at_most(a, states[p], cost_of(actions, idxs.take(p))));
        }
        assert(is_path(actions, world, idxs, states));
    }
}

proof fn lemma_cost_prefix(actions: Seq<Action>, idxs: Seq<int>, p: int)
    requires
        0 <= p <= idxs.len(),
        forall|i: int| 0 <= i < idxs.len() ==> 0 <= #[trigger] idxs[i] < actions.len(),
    ensures
        0 <= cost_of(actions, idxs.take(p)) <= cost_of(actions, idxs),
    decreases idxs.len(),
{
    if idxs.len() > 0 {
        let d = idxs.drop_last();
        if p == idxs.len() {
            assert(idxs.take(p) == idxs);
            lemma_cost_prefix(actions, d, d.len() as int);
            assert(d.take(d.len() as int) == d);
        } else {
            lemma_cost_prefix(actions, d, p);
            assert(d.take(p) == idxs.take(p));
        }
    }
}

/// Extending the walk of `cur`'s node by one step to `next`, which had no record at
/// cost `g` or below, gives a walk of the new node.
proof fn lemma_walk_extend(
    actions: Seq<Action>,
    world: Seq<(Key, Value)>,
    s_old: Seq<Seen>,
    s_new: Seq<Seen>,
    cur_node: Node,
    i: int,
    next: Seq<(Key, Value)>,
    n: Node,
)
    requires
        node_walk(actions, world, s_old, cur_node),
        improves(s_old, s_new),
        0 <= i < actions.len(),
        step_ok(cur_node.state@, actions[i], next),
        n.state@ == next,
        n.cost == cur_node.cost + actions[i].cost,
        !best_at_most(s_old, next, n.cost as int),
        best_at_most(s_new, next, n.cost as int),
    ensures
        node_walk(actions, world, s_new, n),
{
    reveal(node_walk);
    let (idxs, states) = choose|idxs: Seq<int>, states: Seq<Seq<(Key, Value)>>|
        #![trigger is_path(actions, world, idxs, states)]
        {
            &&& is_path(actions, world, idxs, states)
            &&& states.no_duplicates()
            &&& states.last() == cur_node.state@
            &&& cost_of(actions, idxs) == cur_node.cost
            &&& forall|p: int|
                0 <= p <= idxs.len() ==> best_at_most(s_old, #[trigger] states[p], cost_of(actions, idxs.take(p)))
        };
    let idxs2 = idxs.push(i);
    let states2 = states.push(next);
    assert(idxs2.drop_last() == idxs);
    assert(is_path(actions, world, idxs2, states2)) by {
        assert forall|k: int| 0 <= k < idxs2.len() implies 0 <= #[trigger] idxs2[k] < actions.len() && step_ok(
            states2[k],
            actions[idxs2[k]],
            states2[k + 1],
        ) by {
            if k < idxs.len() {
                assert(idxs2[k] == idxs[k]);
                assert(states2[k] == states[k]);
                assert(states2[k + 1] == states[k + 1]);
            } else {
                assert(states2[k] == states[k]);
                assert(states[k] == cur_node.state@);
            }
        }
    }
    assert(states2.no_duplicates()) by {
        assert forall|a: int, b: int| 0 <= a < b < states2.len() implies states2[a] != states2[b] by {
            if b == states.len() {
                if states[a] == next {
                    assert(best_at_most(s_old, states[a], cost_of(actions, idxs.take(a))));
                    lemma_cost_prefix(actions, idxs, a);
                    reveal(best_at_most);
                    let j = choose|j: int| 0 <= j < s_old.len() && #[trigger] s_old[j].state@ == states[a] && s_old[j].best <= cost_of(actions, idxs.take(a));
                    assert(s_old[j].state@ == next);
                }
            } else {
                assert(states2[a] == states[a]);
                assert(states2[b] == states[b]);
            }
        }
    }
    assert forall|p: int| 0 <= p <= idxs2.len() implies best_at_most(s_new, #[trigger] states2[p], cost_of(actions, idxs2.take(p))) by {
        if p <= idxs.len() {
            assert(idxs2.take(p) == idxs.take(p));
            assert(states2[p] == states[p]);
            assert(best_at_most(s_old, states[p], cost_of(actions, idxs.take(p))));
        } else {
            assert(idxs2.take(p) == idxs2);
        }
    }
}

proof fn lemma_costs_push(arena: Seq<Node>, n: Node)
    requires
        costs_drop(arena),
        forall|k: int| 0 <= k < arena.len() && arena[k].state@ == n.state@ ==> n.cost < arena[k].cost,
    ensures
        costs_drop(arena.push(n)),
{
    reveal(costs_drop);
    let b = arena.push(n);
    assert forall|x: int, y: int|
        0 <= x < y < b.len() && #[trigger] b[x].state@ == #[trigger] b[y].state@ implies b[y].cost < b[x].cost by {
        assert(b[x] == arena[x]);
        if y < arena.len() {
            assert(b[y] == arena[y]);
        }
    }
}

/// Past the limit, the nodes pushed are at least as many different (state, cost) pairs
/// of simple walks.
proof fn lemma_many_walks(actions: Seq<Action>, world: Seq<(Key, Value)>, seen: Seq<Seen>, arena: Seq<Node>, n: nat)
    requires
        walks_ok(actions, world, seen, arena),
        costs_drop(arena),
        arena.len() >= n,
    ensures
        many_simple_walks(actions, world, n),
{
    reveal(walks_ok);
    reveal(costs_drop);
    let ps = arena.map_values(|nd: Node| (nd.state@, nd.cost as int));
    assert(ps.no_duplicates()) by {
        assert forall|a: int, b: int| 0 <= a < b < ps.len() implies ps[a] != ps[b] by {
            if ps[a] == ps[b] {
                assert(arena[a].state@ == arena[b].state@);
            }
        }
    }
    assert forall|i: int| 0 <= i < ps.len() implies simple_walk(actions, world, #[trigger] ps[i].0, ps[i].1) by {
        assert(node_walk(actions, world, seen, arena[i]));
        reveal(node_walk);
        let (idxs, states) = choose|idxs: Seq<int>, states: Seq<Seq<(Key, Value)>>|
            #![trigger is_path(actions, world, idxs, states)]
            {
                &&& is_path(actions, world, idxs, states)
                &&& states.no_duplicates()
                &&& states.last() == arena[i].state@
                &&& cost_of(actions, idxs) == arena[i].cost
                &&& forall|p: int|
                    0 <= p <= idxs.len() ==> best_at_most(seen, #[trigger] states[p], cost_of(actions, idxs.take(p)))
            };
        assert(is_path(actions, world, idxs, states));
    }
}

proof fn lemma_fresh_costs(
    seen: Seq<Seen>,
    arena: Seq<Node>,
    w: Seq<(Key, Value)>,
    iter: int,
    x: Seq<(Key, Value)>,
    g: int,
)
    requires
        forall|k: int| 0 <= k < arena.len() ==> node_ok(seen, w, #[trigger] arena[k], iter),
        !best_at_most(seen, x, g),
    ensures
        forall|k: int| 0 <= k < arena.len() && arena[k].state@ == x ==> g < arena[k].cost,
{
    reveal(best_at_most);
    assert forall|k: int| 0 <= k < arena.len() && arena[k].state@ == x implies g < arena[k].cost by {
        assert(node_ok(seen, w, arena[k], iter));
        let j = choose|j: int| #![trigger seen[j]] 0 <= j < seen.len() && seen[j].state@ == arena[k].state@ && seen[j].best <= arena[k].cost;
        if arena[k].cost <= g {
            assert(seen[j].state@ == x && seen[j].best <= g);
        }
    }
}

// ---- The search, step by step, as a function of its inputs ----

/// A state the search has reached: its best known cost and where it was reached from.
pub ghost struct SeenV {
    pub state: Seq<(Key, Value)>,
    pub best: u64,
    pub came: Option<(Seq<(Key, Value)>, &'static str)>,
}

/// A node pushed onto the open list: its cost so far, its estimate and its state.
pub ghost struct NodeV {
    pub cost: u64,
    pub est: u64,
    pub state: Seq<(Key, Value)>,
}

/// Everything the search holds between two nodes taken off the open list.
pub ghost struct Frontier {
    pub heap: Seq<(u64, usize)>,
    pub arena: Seq<NodeV>,
    pub seen: Seq<SeenV>,
    pub iterations: nat,
}

/// How the search ends: the steps and cost of the plan found, or no plan.
pub ghost enum Outcome {
    Found(Seq<&'static str>, u32),
    Exhausted,
    LimitPassed,
}

/// The state that writing `e` over `s` gives.
pub open spec fn applied(s: Seq<(Key, Value)>, e: Seq<(Key, Value)>) -> Seq<(Key, Value)> {
    choose|t: Seq<(Key, Value)>| is_apply(s, e, t)
}

/// The first reached state, from index `i` on, that is `x`.
pub open spec fn first_seen(seen: Seq<SeenV>, x: Seq<(Key, Value)>, i: nat) -> Option<nat>
    decreases seen.len() - i,
{
    if i >= seen.len() {
        None
    } else if seen[i as int].state == x {
        Some(i)
    } else {
        first_seen(seen, x, i + 1)
    }
}

/// Push `item` and sift it up.
pub open spec fn heap_push_spec(h: Seq<(u64, usize)>, item: (u64, usize)) -> Seq<(u64, usize)> {
    sifted(h.push(item), 0, h.len(), item)
}

/// Move the hole at `pos` down to the bottom, always to the child with the smaller key
/// (the right one on a tie), and say where it ends.
pub open spec fn sink(h: Seq<(u64, usize)>, end: nat, pos: nat) -> (Seq<(u64, usize)>, nat)
    decreases end - pos,
{
    if end >= 3 && pos <= (end - 3) as nat / 2 {
        let c0 = 2 * pos + 1;
        let c: nat = if h[c0 as int].0 >= h[(c0 + 1) as int].0 {
            (c0 + 1) as nat
        } else {
            c0 as nat
        };
        sink(h.update(pos as int, h[c as int]), end, c)
    } else if end >= 2 && pos <= (end - 2) as nat / 2 && 2 * pos + 1 == end - 1 {
        (h.update(pos as int, h[(2 * pos + 1) as int]), (2 * pos + 1) as nat)
    } else {
        (h, pos)
    }
}

/// What taking the top off the heap gives: the top, and the heap after.
pub open spec fn heap_pop_spec(h: Seq<(u64, usize)>) -> (Option<(u64, usize)>, Seq<(u64, usize)>) {
    if h.len() == 0 {
        (None, h)
    } else {
        let last = h.last();
        let h1 = h.drop_last();
        if h1.len() == 0 {
            (Some(last), h1)
        } else {
            let (h2, pos) = sink(h1, h1.len(), 0);
            (Some(h1[0]), sifted(h2.update(pos as int, last), 0, pos, last))
        }
    }
}

/// Handle the actions of the node taken off, from action `i` on, as the search does: an
/// action that may run and changes the state records the state reached at the new cost
/// when that is cheaper than its record, and pushes a node for it.
pub open spec fn expand(
    actions: Seq<Action>,
    desired: Seq<(Key, Value)>,
    f: Frontier,
    cur: Seq<(Key, Value)>,
    cur_cost: u64,
    i: nat,
) -> Frontier
    decreases actions.len() - i,
{
    if i >= actions.len() {
        f
    } else {
        let a = actions[i as int];
        if !satisfies_spec(cur, a.pre@) {
            expand(actions, desired, f, cur, cur_cost, i + 1)
        } else {
            let next = applied(cur, a.effects@);
            if next == cur {
                expand(actions, desired, f, cur, cur_cost, i + 1)
            } else {
                let g = (cur_cost + a.cost) as u64;
                let entry = SeenV { state: next, best: g, came: Some((cur, a.name)) };
                let seen2: Option<Seq<SeenV>> = match first_seen(f.seen, next, 0) {
                    Some(j) => if g >= f.seen[j as int].best {
                        None
                    } else {
                        Some(f.seen.update(j as int, entry))
                    },
                    None => Some(f.seen.push(entry)),
                };
                match seen2 {
                    None => expand(actions, desired, f, cur, cur_cost, i + 1),
                    Some(s2) => {
                        let est = unmet(next, desired).len() as u64;
                        let f2 = Frontier {
                            heap: heap_push_spec(f.heap, ((g + est) as u64, f.arena.len() as usize)),
                            arena: f.arena.push(NodeV { cost: g, est, state: next }),
                            seen: s2,
                            iterations: f.iterations,
                        };
                        expand(actions, desired, f2, cur, cur_cost, i + 1)
                    },
                }
            }
        }
    }
}

/// One step back along the recorded predecessors from `x`: the predecessor, the action
/// name and the cost recorded for `x`.
pub open spec fn step_back(seen: Seq<SeenV>, x: Seq<(Key, Value)>) -> Option<(Seq<(Key, Value)>, &'static str, u64)> {
    match first_seen(seen, x, 0) {
        None => None,
        Some(j) => match seen[j as int].came {
            None => None,
            Some((p, n)) => Some((p, n, seen[j as int].best)),
        },
    }
}

/// The state `k` steps back from `x`.
pub open spec fn back_state(seen: Seq<SeenV>, x: Seq<(Key, Value)>, k: nat) -> Seq<(Key, Value)>
    decreases k,
{
    if k == 0 {
        x
    } else {
        match step_back(seen, back_state(seen, x, (k - 1) as nat)) {
            Some((p, _, _)) => p,
            None => back_state(seen, x, (k - 1) as nat),
        }
    }
}

/// The first `k` steps back from `x` all exist.
pub open spec fn walked(seen: Seq<SeenV>, x: Seq<(Key, Value)>, k: nat) -> bool {
    forall|m: nat| m < k ==> #[trigger] step_back(seen, back_state(seen, x, m)) is Some
}

/// The number of steps back from `x` until the start.
pub open spec fn back_len(seen: Seq<SeenV>, x: Seq<(Key, Value)>) -> nat {
    choose|n: nat| walked(seen, x, n) && step_back(seen, back_state(seen, x, n)) is None
}

/// The action names of the first `k` steps back from `x`, the last step first.
pub open spec fn back_names(seen: Seq<SeenV>, x: Seq<(Key, Value)>, k: nat) -> Seq<&'static str>
    decreases k,
{
    if k == 0 {
        Seq::empty()
    } else {
        back_names(seen, x, (k - 1) as nat).push(step_back(seen, back_state(seen, x, (k - 1) as nat)).unwrap().1)
    }
}

/// The steps of the plan that ends in `x`.
pub open spec fn recon_steps(seen: Seq<SeenV>, x: Seq<(Key, Value)>) -> Seq<&'static str> {
    back_names(seen, x, back_len(seen, x)).reverse()
}

/// The cost of the plan that ends in `x`: the cost recorded for its first step's state.
pub open spec fn recon_cost(seen: Seq<SeenV>, x: Seq<(Key, Value)>) -> u32 {
    let n = back_len(seen, x);
    if n == 0 {
        0
    } else {
        step_back(seen, back_state(seen, x, (n - 1) as nat)).unwrap().2 as u32
    }
}

/// The search from frontier `f`, with `n` more nodes allowed off the open list before
/// the limit is passed.
pub open spec fn run(actions: Seq<Action>, desired: Seq<(Key, Value)>, f: Frontier, n: nat) -> Outcome
    decreases n,
{
    let (top, h2) = heap_pop_spec(f.heap);
    match top {
        None => Outcome::Exhausted,
        Some(t) => if n <= 1 || f.iterations + 1 > SEARCH_LIMIT {
            Outcome::LimitPassed
        } else {
            let cur = f.arena[t.1 as int].state;
            let cost = f.arena[t.1 as int].cost;
            if satisfies_spec(cur, desired) {
                Outcome::Found(recon_steps(f.seen, cur), recon_cost(f.seen, cur))
            } else {
                let f1 = Frontier { heap: h2, arena: f.arena, seen: f.seen, iterations: f.iterations + 1 };
                run(actions, desired, expand(actions, desired, f1, cur, cost, 0), (n - 1) as nat)
            }
        },
    }
}

/// How the planner's search for `desired` from `world` ends: at once with the empty plan
/// when `desired` already holds, else by running the search from `world` alone.
pub open spec fn search_outcome(actions: Seq<Action>, world: Seq<(Key, Value)>, desired: Seq<(Key, Value)>) -> Outcome {
    if satisfies_spec(world, desired) {
        Outcome::Found(Seq::empty(), 0)
    } else {
        let est0 = unmet(world, desired).len() as u64;
        let f0 = Frontier {
            heap: heap_push_spec(Seq::empty(), (est0, 0usize)),
            arena: seq![NodeV { cost: 0, est: est0, state: world }],
            seen: seq![SeenV { state: world, best: 0, came: None }],
            iterations: 0,
        };
        run(actions, desired, f0, (SEARCH_LIMIT + 1) as nat)
    }
}

spec fn seen_view(e: Seen) -> SeenV {
    SeenV {
        state: e.state@,
        best: e.best,
        came: match e.came {
            Some((p, n)) => Some((p@, n)),
            None => None,
        },
    }
}

spec fn seen_v(v: Seq<Seen>) -> Seq<SeenV> {
    v.map_values(|e: Seen| seen_view(e))
}

spec fn node_view(n: Node) -> NodeV {
    NodeV { cost: n.cost, est: n.est, state: n.state@ }
}

spec fn arena_v(v: Seq<Node>) -> Seq<NodeV> {
    v.map_values(|n: Node| node_view(n))
}

spec fn fr(heap: Seq<(u64, usize)>, arena: Seq<Node>, seen: Seq<Seen>, it: nat) -> Frontier {
    Frontier { heap, arena: arena_v(arena), seen: seen_v(seen), iterations: it }
}

proof fn lemma_applied(s: Seq<(Key, Value)>, e: Seq<(Key, Value)>, t: Seq<(Key, Value)>)
    requires
        is_apply(s, e, t),
    ensures
        applied(s, e) == t,
{
    lemma_apply_unique(s, e, applied(s, e), t);
}

proof fn lemma_back_len(seen: Seq<SeenV>, x: Seq<(Key, Value)>, k: nat)
    requires
        walked(seen, x, k),
        step_back(seen, back_state(seen, x, k)) is None,
    ensures
        back_len(seen, x) == k,
{
    let n = back_len(seen, x);
    assert(walked(seen, x, n) && step_back(seen, back_state(seen, x, n)) is None);
    if n < k {
        assert(step_back(seen, back_state(seen, x, n)) is Some);
    } else if n > k {
        assert(step_back(seen, back_state(seen, x, k)) is Some);
    }
}

fn find_seen(seen: &Vec<Seen>, s: &WorldState) -> (r: Option<usize>)
    ensures
        r matches Some(j) ==> j < seen@.len() && seen@[j as int].state@ == s@,
        r is None ==> forall|j: int| 0 <= j < seen@.len() ==> seen@[j].state@ != s@,
        r matches Some(j) ==> first_seen(seen_v(seen@), s@, 0) == Some(j as nat),
        r is None ==> first_seen(seen_v(seen@), s@, 0) is None,
{
    let mut i: usize = 0;
    while i < seen.len()
        invariant
            i <= seen@.len(),
            forall|j: int| 0 <= j < i ==> seen@[j].state@ != s@,
            first_seen(seen_v(seen@), s@, 0) == first_seen(seen_v(seen@), s@, i as nat),
        decreases seen@.len() - i,
    {
        assert(seen_v(seen@)[i as int] == seen_view(seen@[i as int]));
        if seen[i].state.same(s) {
            return Some(i);
        }
        i += 1;
    }
    None
}

proof fn lemma_hole_move(h: Seq<(u64, usize)>, i: int, j: int, x: (u64, usize))
    requires
        0 <= i < h.len(),
        0 <= j < h.len(),
        i != j,
    ensures
        h.update(i, h[j]).update(j, x).to_multiset() == h.update(i, x).to_multiset(),
{
    broadcast use vstd::multiset::group_multiset_axioms;

    let a = h.update(i, h[j]);
    assert(a[j] == h[j]);
    vstd::seq_lib::to_multiset_update(h, i, h[j]);
    vstd::seq_lib::to_multiset_update(a, j, x);
    vstd::seq_lib::to_multiset_update(h, i, x);
    let m = h.to_multiset();
    assert(h.to_multiset().count(h[i]) > 0) by {
        vstd::seq_lib::to_multiset_contains(h, h[i]);
        assert(h.contains(h[i]));
    }
    assert(h.to_multiset().count(h[j]) > 0) by {
        vstd::seq_lib::to_multiset_contains(h, h[j]);
        assert(h.contains(h[j]));
    }
    let l = a.update(j, x).to_multiset();
    let r = h.update(i, x).to_multiset();
    assert forall|v: (u64, usize)| l.count(v) == r.count(v) by {}
    assert(l =~= r);
}

proof fn lemma_sifted_multiset(h: Seq<(u64, usize)>, start: nat, pos: nat, item: (u64, usize))
    requires
        pos < h.len(),
    ensures
        sifted(h, start, pos, item).to_multiset() == h.update(pos as int, item).to_multiset(),
        sifted(h, start, pos, item).len() == h.len(),
    decreases pos,
{
    if pos > start && pos > 0 && (pos - 1) / 2 >= start && item.0 < h[(pos - 1) / 2].0 {
        let parent = ((pos - 1) / 2) as nat;
        lemma_sifted_multiset(h.update(pos as int, h[parent as int]), start, parent, item);
        lemma_hole_move(h, pos as int, parent as int, item);
    }
}

/// Push onto a binary heap ordered so that the smallest key is on top; ties keep the
/// order that the standard library's max-heap gives for this reversed ordering.
fn heap_push(heap: &mut Vec<(u64, usize)>, item: (u64, usize), Ghost(bound): Ghost<nat>)
    requires
        forall|k: int| 0 <= k < old(heap)@.len() ==> old(heap)@[k].1 < bound,
        item.1 < bound,
    ensures
        final(heap)@.len() == old(heap)@.len() + 1,
        final(heap)@.to_multiset() == old(heap)@.to_multiset().insert(item),
        final(heap)@ == heap_push_spec(old(heap)@, item),
        forall|k: int| 0 <= k < final(heap)@.len() ==> final(heap)@[k].1 < bound,
{
    heap.push(item);
    let pos = heap.len() - 1;
    proof {
        broadcast use vstd::seq_lib::to_multiset_build;

        assert(heap@.update(pos as int, item) == heap@);
        lemma_sifted_multiset(heap@, 0, pos as nat, item);
    }
    sift_up(heap, 0, pos, Ghost(bound));
}

/// What sifting `item` up from `pos` leaves: while `pos` is above `start` and its parent,
/// still at or after `start`, holds a larger key, the parent moves down into `pos` and
/// `pos` becomes the parent; then `item` is written at `pos`.
pub open spec fn sifted(h: Seq<(u64, usize)>, start: nat, pos: nat, item: (u64, usize)) -> Seq<(u64, usize)>
    decreases pos,
{
    if pos > start && pos > 0 && (pos - 1) / 2 >= start && item.0 < h[(pos - 1) / 2].0 {
        let parent = ((pos - 1) / 2) as nat;
        sifted(h.update(pos as int, h[parent as int]), start, parent, item)
    } else {
        h.update(pos as int, item)
    }
}

/// Move the element at `pos` up towards `start` past every parent with a larger key.
fn sift_up(heap: &mut Vec<(u64, usize)>, start: usize, pos: usize, Ghost(bound): Ghost<nat>)
    requires
        start <= pos < old(heap)@.len(),
        forall|k: int| 0 <= k < old(heap)@.len() ==> old(heap)@[k].1 < bound,
    ensures
        final(heap)@ == sifted(old(heap)@, start as nat, pos as nat, old(heap)@[pos as int]),
        final(heap)@.len() == old(heap)@.len(),
        forall|k: int| 0 <= k < final(heap)@.len() ==> final(heap)@[k].1 < bound,
{
    let ghost h0 = heap@;
    let ghost pos0 = pos;
    let item = heap[pos];
    let mut pos = pos;
    while pos > start
        invariant_except_break
            start <= pos < heap@.len(),
            heap@.len() == old(heap)@.len(),
            item.1 < bound,
            forall|k: int| 0 <= k < heap@.len() ==> heap@[k].1 < bound,
            sifted(heap@, start as nat, pos as nat, item) == sifted(h0, start as nat, pos0 as nat, item),
        ensures
            start <= pos < heap@.len(),
            heap@.len() == old(heap)@.len(),
            item.1 < bound,
            forall|k: int| 0 <= k < heap@.len() ==> heap@[k].1 < bound,
            heap@.update(pos as int, item) == sifted(h0, start as nat, pos0 as nat, item),
        decreases pos,
    {
        let parent = (pos - 1) / 2;
        if item.0 >= heap[parent].0 {
            break;
        }
        if parent < start {
            break;
        }
        let moved = heap[parent];
        heap.set(pos, moved);
        pos = parent;
    }
    heap.set(pos, item);
}

/// Take the top (smallest key) off the heap, as the standard library's `pop` does.
fn heap_pop(heap: &mut Vec<(u64, usize)>, Ghost(bound): Ghost<nat>) -> (r: Option<(u64, usize)>)
    requires
        forall|k: int| 0 <= k < old(heap)@.len() ==> old(heap)@[k].1 < bound,
    ensures
        r is None <==> old(heap)@.len() == 0,
        r is None ==> final(heap)@ == old(heap)@,
        r is Some ==> final(heap)@.len() == old(heap)@.len() - 1,
        r matches Some(x) ==> x.1 < bound && old(heap)@.to_multiset() == final(heap)@.to_multiset().insert(x),
        forall|k: int| 0 <= k < final(heap)@.len() ==> final(heap)@[k].1 < bound,
        (r, final(heap)@) == heap_pop_spec(old(heap)@),
{
    match heap.pop() {
        None => None,
        Some(last) => {
            let ghost h1 = heap@;
            proof {
                broadcast use vstd::seq_lib::to_multiset_build;

                assert(old(heap)@ == h1.push(last));
            }
            if heap.len() == 0 {
                return Some(last);
            }
            let top = heap[0];
            // sift the last element down to the bottom, then back up
            let end = heap.len();
            let mut pos: usize = 0;
            proof {
                vstd::seq_lib::to_multiset_update(h1, 0, last);
            }
            // `child` is `2 * pos + 1`; descend while both children exist
            while end >= 3 && pos <= (end - 3) / 2
                invariant
                    heap@.len() == end,
                    end >= 1,
                    pos < end,
                    last.1 < bound,
                    forall|k: int| 0 <= k < heap@.len() ==> heap@[k].1 < bound,
                    heap@.update(pos as int, last).to_multiset() == h1.to_multiset().insert(last).remove(top),
                    sink(heap@, end as nat, pos as nat) == sink(h1, end as nat, 0),
                    h1.len() == end,
                    top == h1[0],
                decreases end - pos,
            {
                let mut child = 2 * pos + 1;
                if heap[child].0 >= heap[child + 1].0 {
                    child = child + 1;
                }
                let moved = heap[child];
                proof {
                    lemma_hole_move(heap@, pos as int, child as int, last);
                }
                heap.set(pos, moved);
                pos = child;
            }
            if end >= 2 && pos <= (end - 2) / 2 && 2 * pos + 1 == end - 1 {
                let child = 2 * pos + 1;
                let moved = heap[child];
                proof {
                    lemma_hole_move(heap@, pos as int, child as int, last);
                }
                heap.set(pos, moved);
                pos = child;
            }
            let ghost h2 = heap@;
            assert(sink(h1, end as nat, 0) == (h2, pos as nat));
            heap.set(pos, last);
            proof {
                assert(heap@.update(pos as int, heap@[pos as int]) == heap@);
                lemma_sifted_multiset(heap@, 0, pos as nat, heap@[pos as int]);
            }
            sift_up(heap, 0, pos, Ghost(bound));
            proof {
                broadcast use vstd::multiset::group_multiset_axioms;

                let m = h1.to_multiset().insert(last);
                assert(h1.to_multiset().count(top) > 0) by {
                    vstd::seq_lib::to_multiset_contains(h1, top);
                    assert(h1[0] == top);
                    assert(h1.contains(top));
                }
                assert(m.remove(top).insert(top) =~= m);
            }
            Some(top)
        },
    }
}

/// Walk the recorded predecessors back from `end` to the start and return the plan.
fn reconstruct(
    goal: &'static str,
    seen: &Vec<Seen>,
    end: &WorldState,
    Ghost(actions): Ghost<Seq<Action>>,
    Ghost(world): Ghost<Seq<(Key, Value)>>,
    Ghost(acts): Ghost<Seq<int>>,
    Ghost(stamps): Ghost<Seq<int>>,
    Ghost(clock): Ghost<int>,
) -> (p: Plan)
    requires
        seen_ok(actions, world, seen@, acts, stamps, clock),
        exists|j: int| 0 <= j < seen@.len() && seen@[j].state@ == end@,
    ensures
        p.goal == goal,
        exists|idxs: Seq<int>, states: Seq<Seq<(Key, Value)>>|
            #![trigger is_path(actions, world, idxs, states)]
            {
                &&& is_path(actions, world, idxs, states)
                &&& states.last() == end@
                &&& p.steps@.len() == idxs.len()
                &&& forall|i: int| 0 <= i < idxs.len() ==> p.steps@[i] == actions[idxs[i]].name
                &&& p.cost == (if idxs.len() == 0 { 0 } else { actions[idxs[0]].cost })
            },
        p.steps@ == recon_steps(seen_v(seen@), end@),
        p.cost == recon_cost(seen_v(seen@), end@),
{
    let ghost sv = seen_v(seen@);
    let mut rev_steps: Vec<&'static str> = Vec::new();
    let mut cur = end.clone();
    let mut cost: u64 = 0;
    let ghost mut ci: int = choose|j: int| 0 <= j < seen@.len() && seen@[j].state@ == end@;
    let ghost mut idxs: Seq<int> = Seq::empty();
    let ghost mut states: Seq<Seq<(Key, Value)>> = seq![end@];
    let ghost mut first_entry: int = 0;
    loop
        invariant_except_break
            seen_ok(actions, world, seen@, acts, stamps, clock),
            0 <= ci < seen@.len(),
            seen@[ci].state@ == cur@,
        invariant
            is_path(actions, cur@, idxs, states),
            states.last() == end@,
            rev_steps@.len() == idxs.len(),
            forall|k: int|
                0 <= k < idxs.len() ==> rev_steps@[k] == actions[idxs[idxs.len() - 1 - k]].name,
            idxs.len() > 0 ==> {
                &&& 1 <= first_entry < seen@.len()
                &&& seen@[first_entry].came is Some
                &&& pred_of(seen@[first_entry]) == cur@
                &&& acts[first_entry] == idxs[0]
                &&& cost == seen@[first_entry].best
            },
            sv == seen_v(seen@),
            rev_steps@ == back_names(sv, end@, rev_steps@.len() as nat),
            cur@ == back_state(sv, end@, rev_steps@.len() as nat),
            walked(sv, end@, rev_steps@.len() as nat),
            rev_steps@.len() > 0 ==> cost == step_back(sv, back_state(sv, end@, (rev_steps@.len() - 1) as nat)).unwrap().2,
        ensures
            cur@ == world,
            is_path(actions, cur@, idxs, states),
            seen_ok(actions, world, seen@, acts, stamps, clock),
            step_back(sv, back_state(sv, end@, rev_steps@.len() as nat)) is None,
        decreases seen@[ci].best, stamps[ci],
    {
        let found = find_seen(seen, &cur);
        let j = match found {
            None => {
                break;
            },
            Some(j) => j,
        };
        assert(j == ci) by {
            if j != ci {
                if j < ci {
                    assert(seen@[j as int].state@ != seen@[ci].state@);
                } else {
                    assert(seen@[ci].state@ != seen@[j as int].state@);
                }
            }
        }
        proof {
            assert(sv[j as int] == seen_view(seen@[j as int]));
        }
        match &seen[j].came {
            None => {
                proof {
                    if j > 0 {
                        assert(entry_ok(actions, world, seen@, stamps, j as int, acts[j as int]));
                    }
                }
                break;
            },
            Some((prev, name)) => {
                let ghost k0 = rev_steps@.len() as nat;
                proof {
                    assert(sv[j as int] == seen_view(seen@[j as int]));
                    assert(step_back(sv, cur@) == Some((prev@, *name, seen@[j as int].best)));
                }
                let ghost old_idxs = idxs;
                proof {
                    assert(j >= 1);
                    assert(entry_ok(actions, world, seen@, stamps, j as int, acts[j as int]));
                    let a = acts[j as int];
                    let nj = choose|n: int|
                        #![trigger seen@[n]]
                        0 <= n < seen@.len() && seen@[n].state@ == prev@ && (seen@[n].best
                            < seen@[j as int].best || (seen@[n].best == seen@[j as int].best
                            && stamps[n] < stamps[j as int]));
                    let old_states = states;
                    idxs = seq![a] + old_idxs;
                    states = seq![prev@] + old_states;
                    assert forall|i: int| 0 <= i < idxs.len() implies 0 <= #[trigger] idxs[i] < actions.len()
                        && step_ok(states[i], actions[idxs[i]], states[i + 1]) by {
                        if i > 0 {
                            assert(idxs[i] == old_idxs[i - 1]);
                            assert(states[i] == old_states[i - 1]);
                            assert(states[i + 1] == old_states[i]);
                        } else {
                            assert(states[1] == old_states[0]);
                        }
                    }
                    assert(states.last() == old_states.last());
                    first_entry = j as int;
                    ci = nj;
                }
                rev_steps.push(*name);
                proof {
                    assert forall|k: int| 0 <= k < idxs.len() implies rev_steps@[k] == actions[idxs[idxs.len() - 1 - k]].name by {
                        if k < idxs.len() - 1 {
                            assert(idxs[idxs.len() - 1 - k] == old_idxs[old_idxs.len() - 1 - k]);
                        }
                    }
                }
                cost = seen[j].best;
                cur = prev.clone();
                proof {
                    assert(back_state(sv, end@, k0 + 1) == cur@);
                    assert forall|m: nat| m < k0 + 1 implies #[trigger] step_back(sv, back_state(sv, end@, m)) is Some by {
                        if m < k0 {
                        }
                    }
                    assert(rev_steps@ =~= back_names(sv, end@, k0 + 1));
                }
            },
        }
    }
    let mut steps: Vec<&'static str> = Vec::new();
    let mut k: usize = rev_steps.len();
    while k > 0
        invariant
            k <= rev_steps@.len(),
            steps@.len() == rev_steps@.len() - k,
            forall|m: int| 0 <= m < steps@.len() ==> steps@[m] == rev_steps@[rev_steps@.len() - 1 - m],
        decreases k,
    {
        k -= 1;
        steps.push(rev_steps[k]);
    }
    proof {
        lemma_back_len(sv, end@, rev_steps@.len() as nat);
        assert(steps@ =~= back_names(sv, end@, rev_steps@.len() as nat).reverse());
    }
    let final_cost: u32 = if rev_steps.len() == 0 {
        0
    } else {
        proof {
            assert(entry_ok(actions, world, seen@, stamps, first_entry, acts[first_entry]));
        }
        cost as u32
    };
    Plan { goal, steps, cost: final_cost }
}

impl Planner {
    /// A planner with no actions.
    pub fn new() -> (r: Self)
        ensures
            r@ == Seq::<Action>::empty(),
    {
        Planner { actions: Vec::new() }
    }

    /// Add an action that plans may use.
    pub fn add_action(&mut self, action: Action)
        ensures
            final(self)@ == old(self)@.push(action),
    {
        self.actions.push(action);
    }

    /// A* search from `world` for a state that satisfies `goal.desired`. States are
    /// expanded by the actions that are available and change the state; a state is kept
    /// only when it is reached more cheaply than before. The search takes at most
    /// 4096 states off the open list, and says whether it found a plan, ran out of
    /// states to expand, or passed that limit.
    pub fn search(&self, world: &WorldState, goal: &Goal) -> (r: SearchEnd)
        ensures
            satisfies_spec(world@, goal.desired@) ==> (r matches SearchEnd::Found(p) && p.goal
                == goal.name && p.steps@.len() == 0 && p.cost == 0),
            r matches SearchEnd::Found(p) ==> plan_for(self@, world@, *goal, p),
            r is Exhausted ==> !reachable(self@, world@, goal.desired@),
            r is LimitPassed ==> many_simple_walks(self@, world@, (SEARCH_LIMIT + 1) as nat),
            match r {
                SearchEnd::Found(p) => p.goal == goal.name && search_outcome(self@, world@, goal.desired@)
                    == Outcome::Found(p.steps@, p.cost),
                SearchEnd::Exhausted => search_outcome(self@, world@, goal.desired@) is Exhausted,
                SearchEnd::LimitPassed => search_outcome(self@, world@, goal.desired@) is LimitPassed,
            },
    {
        if world.satisfies(&goal.desired) {
            let p = Plan { goal: goal.name, steps: Vec::new(), cost: 0 };
            proof {
                let idxs: Seq<int> = Seq::empty();
                let states: Seq<Seq<(Key, Value)>> = seq![world@];
                assert(is_path(self@, world@, idxs, states));
                assert(p.steps@ =~= Seq::<&'static str>::empty());
            }
            return SearchEnd::Found(p);
        }
        let ghost actions = self@;
        let ghost w = world@;
        let mut arena: Vec<Node> = Vec::new();
        let est0 = world.heuristic(&goal.desired) as u64;
        arena.push(Node { cost: 0, est: est0, state: world.clone() });
        let mut heap: Vec<(u64, usize)> = Vec::new();
        heap_push(&mut heap, (est0, 0), Ghost(1));
        let mut seen: Vec<Seen> = Vec::new();
        seen.push(Seen { state: world.clone(), best: 0, came: None });
        let ghost mut acts: Seq<int> = seq![0];
        let ghost mut stamps: Seq<int> = seq![0];
        let ghost mut clock: int = 1;
        let mut iterations: usize = 0;
        let ghost desired = goal.desired@;
        let ghost out0 = search_outcome(actions, w, desired);
        proof {
            assert(arena_v(arena@) =~= seq![NodeV { cost: 0, est: est0, state: w }]);
            assert(seen_v(seen@) =~= seq![SeenV { state: w, best: 0, came: None }]);
            assert(run(actions, desired, fr(heap@, arena@, seen@, 0), (SEARCH_LIMIT + 1) as nat) == out0);
        }
        proof {
            assert(node_ok(seen@, w, arena@[0], 0)) by {
                assert(seen@[0].state@ == arena@[0].state@);
            }
            assert(walks_ok(actions, w, seen@, arena@)) by {
                reveal(walks_ok);
                reveal(node_walk);
                reveal(best_at_most);
                let idxs: Seq<int> = Seq::empty();
                let states: Seq<Seq<(Key, Value)>> = seq![w];
                assert(is_path(actions, w, idxs, states));
                assert(states.no_duplicates());
                assert(seen@[0].state@ == states[0]);
                assert(idxs.take(0) == idxs);
                assert(node_walk(actions, w, seen@, arena@[0]));
            }
            assert(costs_drop(arena@)) by {
                reveal(costs_drop);
            }
            assert(settled(actions, desired, seen@, heap@, arena@, None)) by {
                reveal(settled);
                reveal(in_open);
                vstd::seq_lib::to_multiset_contains(heap@, (est0, 0usize));
                assert forall|j: int| 0 <= j < seen@.len() implies in_open(heap@, arena@, #[trigger] seen@[j].state@) by {
                    assert(heap@.contains((est0, 0usize)));
                }
            }
        }
        loop
            invariant
                actions == self@,
                w == world@,
                desired == goal.desired@,
                !satisfies_spec(w, goal.desired@),
                iterations <= SEARCH_LIMIT,
                seen_ok(actions, w, seen@, acts, stamps, clock),
                forall|k: int| 0 <= k < heap@.len() ==> heap@[k].1 < arena@.len(),
                forall|k: int| 0 <= k < arena@.len() ==> node_ok(seen@, w, #[trigger] arena@[k], iterations as int),
                settled(actions, desired, seen@, heap@, arena@, None),
                iterations + heap@.len() == arena@.len(),
                walks_ok(actions, w, seen@, arena@),
                costs_drop(arena@),
                out0 == search_outcome(actions, w, desired),
                run(actions, desired, fr(heap@, arena@, seen@, iterations as nat), (SEARCH_LIMIT + 1 - iterations) as nat) == out0,
            decreases SEARCH_LIMIT + 1 - iterations,
        {
            let ghost h_before = heap@;
            let ghost f_before = fr(heap@, arena@, seen@, iterations as nat);
            let top = heap_pop(&mut heap, Ghost(arena@.len()));
            let idx = match top {
                None => {
                    proof {
                        assert(heap@ =~= Seq::<(u64, usize)>::empty());
                        lemma_in_seen(seen@, 0);
                        lemma_exhausted(actions, desired, seen@, arena@, w);
                    }
                    return SearchEnd::Exhausted;
                },
                Some(t) => {
                    proof {
                        lemma_settled_pop(actions, desired, seen@, h_before, heap@, arena@, t);
                    }
                    t.1
                },
            };
            iterations += 1;
            if iterations > SEARCH_LIMIT {
                proof {
                    assert(heap_pop_spec(f_before.heap).0 is Some);
                    lemma_many_walks(actions, w, seen@, arena@, (SEARCH_LIMIT + 1) as nat);
                }
                return SearchEnd::LimitPassed;
            }
            let cur = arena[idx].state.clone();
            let cur_cost = arena[idx].cost;
            let ghost f1 = fr(heap@, arena@, seen@, iterations as nat);
            proof {
                assert(arena_v(arena@)[idx as int] == node_view(arena@[idx as int]));
                assert(heap_pop_spec(f_before.heap).0 == Some(top.unwrap()));
            }
            proof {
                assert(closed_upto(actions, seen@, cur@, 0)) by {
                    reveal(closed_upto);
                }
            }
            proof {
                assert(node_ok(seen@, w, arena@[idx as int], iterations - 1));
                assert forall|k: int| 0 <= k < arena@.len() implies node_ok(seen@, w, #[trigger] arena@[k], iterations as int) by {
                    assert(node_ok(seen@, w, arena@[k], iterations - 1));
                }
            }
            if cur.satisfies(&goal.desired) {
                let p = reconstruct(
                    goal.name,
                    &seen,
                    &cur,
                    Ghost(actions),
                    Ghost(w),
                    Ghost(acts),
                    Ghost(stamps),
                    Ghost(clock),
                );
                return SearchEnd::Found(p);
            }
            let mut i: usize = 0;
            while i < self.actions.len()
                invariant
                    actions == self@,
                    w == world@,
                    1 <= iterations <= SEARCH_LIMIT,
                    i <= actions.len(),
                    cur_cost <= (iterations - 1) * 0xFFFF_FFFF,
                    cur@ == w ==> cur_cost == 0,
                    exists|j: int|
                        #![trigger seen@[j]]
                        0 <= j < seen@.len() && seen@[j].state@ == cur@ && seen@[j].best <= cur_cost,
                    seen_ok(actions, w, seen@, acts, stamps, clock),
                    forall|k: int| 0 <= k < heap@.len() ==> heap@[k].1 < arena@.len(),
                    forall|k: int|
                        0 <= k < arena@.len() ==> node_ok(seen@, w, #[trigger] arena@[k], iterations as int),
                    desired == goal.desired@,
                    !satisfies_spec(cur@, desired),
                    settled(actions, desired, seen@, heap@, arena@, Some(cur@)),
                    closed_upto(actions, seen@, cur@, i as int),
                    iterations + heap@.len() == arena@.len(),
                    walks_ok(actions, w, seen@, arena@),
                    costs_drop(arena@),
                    idx < arena@.len(),
                    arena@[idx as int].state@ == cur@,
                    arena@[idx as int].cost == cur_cost,
                    expand(actions, desired, fr(heap@, arena@, seen@, iterations as nat), cur@, cur_cost, i as nat)
                        == expand(actions, desired, f1, cur@, cur_cost, 0),
                decreases actions.len() - i,
            {
                let ghost fi = fr(heap@, arena@, seen@, iterations as nat);
                let action = &self.actions[i];
                if !action.available(&cur) {
                    proof {
                        lemma_closed_next(actions, seen@, cur@, i as int);
                        assert(expand(actions, desired, fi, cur@, cur_cost, i as nat) == expand(actions, desired, fi, cur@, cur_cost, (i + 1) as nat));
                    }
                    i += 1;
                    continue;
                }
                let next = cur.apply(&action.effects);
                proof {
                    assert forall|t: Seq<(Key, Value)>| step_ok(cur@, actions[i as int], t) implies t == next@ by {
                        lemma_apply_unique(cur@, action.effects@, t, next@);
                    }
                }
                proof {
                    lemma_applied(cur@, action.effects@, next@);
                }
                if next.same(&cur) {
                    proof {
                        lemma_closed_next(actions, seen@, cur@, i as int);
                        assert(expand(actions, desired, fi, cur@, cur_cost, i as nat) == expand(actions, desired, fi, cur@, cur_cost, (i + 1) as nat));
                    }
                    i += 1;
                    continue;
                }
                let g: u64 = cur_cost + action.cost as u64;
                let ghost cj = choose|j: int|
                    #![trigger seen@[j]]
                    0 <= j < seen@.len() && seen@[j].state@ == cur@ && seen@[j].best <= cur_cost;
                let found = find_seen(&seen, &next);
                let ghost old_seen = seen@;
                let ghost settle_heap = heap@;
                let ghost settle_arena = arena@;
                let ghost old_stamps = stamps;
                let ghost old_acts = acts;
                match found {
                    Some(j) => {
                        if g >= seen[j].best {
                            proof {
                                lemma_in_seen(seen@, j as int);
                                lemma_closed_next(actions, seen@, cur@, i as int);
                                assert(seen_v(seen@)[j as int] == seen_view(seen@[j as int]));
                                assert(expand(actions, desired, fi, cur@, cur_cost, i as nat) == expand(actions, desired, fi, cur@, cur_cost, (i + 1) as nat));
                            }
                            i += 1;
                            continue;
                        }
                        seen.set(j, Seen { state: next.clone(), best: g, came: Some((cur.clone(), action.name)) });
                        proof {
                            acts = acts.update(j as int, i as int);
                            stamps = stamps.update(j as int, clock);
                        }
                    },
                    None => {
                        seen.push(Seen { state: next.clone(), best: g, came: Some((cur.clone(), action.name)) });
                        proof {
                            acts = acts.push(i as int);
                            stamps = stamps.push(clock);
                        }
                    },
                }
                let ghost nj: int = match found {
                    Some(j) => j as int,
                    None => old_seen.len() as int,
                };
                proof {
                    let s = seen@;
                    assert(nj != 0) by {
                        if nj == 0 {
                            assert(old_seen[0].best == 0);
                        }
                    }
                    assert(cj != nj) by {
                        if cj == nj {
                            assert(old_seen[cj].state@ == next@);
                        }
                    }
                    assert(s[nj].state@ == next@);
                    assert(s[cj] == old_seen[cj]);
                    assert(forall|x: int| 0 <= x < s.len() && x != nj ==> s[x] == old_seen[x]);
                    assert(forall|x: int| 0 <= x < s.len() && x != nj ==> stamps[x] == old_stamps[x]);
                    assert(forall|x: int| 0 <= x < s.len() && x != nj ==> acts[x] == old_acts[x]);
                    // the replaced entry only got cheaper
                    assert(nj < old_seen.len() ==> s[nj].best < old_seen[nj].best);
                    assert forall|a: int, b: int| 0 <= a < b < s.len() implies s[a].state@ != s[b].state@ by {
                        if a != nj && b != nj {
                            assert(old_seen[a].state@ != old_seen[b].state@);
                        } else if a == nj {
                            assert(s[b] == old_seen[b]);
                            if b < old_seen.len() && nj < old_seen.len() {
                                assert(old_seen[a].state@ != old_seen[b].state@);
                            }
                        } else {
                            assert(s[a] == old_seen[a]);
                            if nj < old_seen.len() {
                                assert(old_seen[a].state@ != old_seen[b].state@);
                            }
                        }
                    }
                    assert(entry_ok(actions, w, s, stamps, nj, acts[nj])) by {
                        assert(s[cj].state@ == cur@);
                        assert(stamps[cj] < clock);
                        assert(stamps[nj] == clock);
                        assert(acts[nj] == i);
                    }
                    assert forall|x: int| 1 <= x < s.len() implies entry_ok(actions, w, s, stamps, x, #[trigger] acts[x]) by {
                        if x != nj {
                            assert(entry_ok(actions, w, old_seen, old_stamps, x, old_acts[x]));
                            let wj = choose|j: int|
                                #![trigger old_seen[j]]
                                0 <= j < old_seen.len() && old_seen[j].state@ == pred_of(old_seen[x]) && (old_seen[j].best < old_seen[x].best
                                    || (old_seen[j].best == old_seen[x].best && old_stamps[j] < old_stamps[x]));
                            if wj != nj {
                                assert(s[wj] == old_seen[wj]);
                            } else {
                                assert(s[wj].best < old_seen[wj].best);
                                assert(s[wj].state@ == old_seen[wj].state@);
                            }
                        }
                    }
                    assert forall|x: int| 0 <= x < s.len() implies 0 <= #[trigger] stamps[x] < clock + 1 by {
                        if x != nj {
                            assert(old_stamps[x] < clock);
                        }
                    }
                    assert forall|k: int| 0 <= k < arena@.len() implies node_ok(s, w, #[trigger] arena@[k], iterations as int) by {
                        assert(node_ok(old_seen, w, arena@[k], iterations as int));
                        let wj = choose|j: int|
                            #![trigger old_seen[j]]
                            0 <= j < old_seen.len() && old_seen[j].state@ == arena@[k].state@ && old_seen[j].best <= arena@[k].cost;
                        if wj != nj {
                            assert(s[wj] == old_seen[wj]);
                        } else {
                            assert(s[wj].state@ == old_seen[wj].state@);
                        }
                    }
                    assert(s[0] == old_seen[0]);
                    clock = clock + 1;
                    assert(seen_ok(actions, w, s, acts, stamps, clock));
                }
                let est = next.heuristic(&goal.desired) as u64;
                let ghost next_v = next@;
                let ghost old_arena = arena@;
                arena.push(Node { cost: g, est, state: next });
                proof {
                    assert(node_ok(seen@, w, arena@[old_arena.len() as int], iterations as int)) by {
                        assert(seen@[nj].state@ == arena@[old_arena.len() as int].state@);
                        assert(seen@[0].state@ == w);
                        if nj != 0 {
                            assert(seen@[0].state@ != seen@[nj].state@);
                        }
                    }
                    assert forall|k: int| 0 <= k < arena@.len() implies node_ok(seen@, w, #[trigger] arena@[k], iterations as int) by {
                        if k < old_arena.len() {
                            assert(arena@[k] == old_arena[k]);
                        }
                    }
                }
                let ghost alen = arena@.len();
                proof {
                    match found {
                        Some(j) => {
                            assert(seen@ == old_seen.update(j as int, seen@[j as int]));
                            lemma_seen_set(old_seen, j as int, seen@[j as int]);
                        },
                        None => {
                            assert(seen@ == old_seen.push(seen@[old_seen.len() as int]));
                            lemma_seen_push(old_seen, seen@[old_seen.len() as int]);
                        },
                    }
                }
                heap_push(&mut heap, (g + est, arena.len() - 1), Ghost(alen as nat));
                proof {
                    lemma_settled_step(
                        actions,
                        desired,
                        old_seen,
                        settle_heap,
                        settle_arena,
                        seen@,
                        heap@,
                        arena@,
                        cur@,
                        next_v,
                        ((g + est) as u64, (alen - 1) as usize),
                    );
                    lemma_closed_next(actions, seen@, cur@, i as int);
                    let nnode = arena@[(alen - 1) as int];
                    assert(!best_at_most(old_seen, next_v, g as int)) by {
                        reveal(best_at_most);
                        if best_at_most(old_seen, next_v, g as int) {
                            let q = choose|q: int| 0 <= q < old_seen.len() && #[trigger] old_seen[q].state@ == next_v && old_seen[q].best <= g;
                            match found {
                                Some(j) => {
                                    if q != j as int {
                                        assert(old_seen[q].state@ == old_seen[j as int].state@);
                                    }
                                },
                                None => {
                                    assert(old_seen[q].state@ == next_v);
                                },
                            }
                        }
                    }
                    assert(best_at_most(seen@, next_v, g as int)) by {
                        reveal(best_at_most);
                        assert(seen@[nj].state@ == next_v);
                    }
                    match found {
                        Some(j) => {
                            lemma_improves_set(old_seen, j as int, seen@[j as int]);
                        },
                        None => {
                            lemma_improves_push(old_seen, seen@[old_seen.len() as int]);
                        },
                    }
                    lemma_fresh_costs(old_seen, settle_arena, w, iterations as int, next_v, g as int);
                    lemma_costs_push(settle_arena, nnode);
                    assert(arena@ == settle_arena.push(nnode));
                    lemma_walks_persist(actions, w, old_seen, seen@, settle_arena);
                    assert(node_walk(actions, w, old_seen, settle_arena[idx as int])) by {
                        reveal(walks_ok);
                    }
                    lemma_walk_extend(actions, w, old_seen, seen@, settle_arena[idx as int], i as int, next_v, nnode);
                    assert(walks_ok(actions, w, seen@, arena@)) by {
                        reveal(walks_ok);
                        assert forall|k: int| 0 <= k < arena@.len() implies node_walk(actions, w, seen@, #[trigger] arena@[k]) by {
                            if k < settle_arena.len() {
                                assert(arena@[k] == settle_arena[k]);
                            }
                        }
                    }
                    let entry = SeenV { state: next_v, best: g, came: Some((cur@, action.name)) };
                    assert(seen_view(seen@[nj]) == entry);
                    match found {
                        Some(j) => {
                            assert(seen_v(old_seen)[j as int] == seen_view(old_seen[j as int]));
                            assert(seen_v(seen@) =~= seen_v(old_seen).update(j as int, entry));
                        },
                        None => {
                            assert(seen_v(seen@) =~= seen_v(old_seen).push(entry));
                        },
                    }
                    assert(arena_v(arena@) =~= arena_v(settle_arena).push(NodeV { cost: g, est, state: next_v }));
                    assert(expand(actions, desired, fi, cur@, cur_cost, i as nat) == expand(
                        actions,
                        desired,
                        fr(heap@, arena@, seen@, iterations as nat),
                        cur@,
                        cur_cost,
                        (i + 1) as nat,
                    ));
                }
                i += 1;
            }
            proof {
                lemma_settle_cur(actions, desired, seen@, heap@, arena@, cur@);
                assert(run(actions, desired, f_before, (SEARCH_LIMIT + 1 - (iterations - 1)) as nat) == run(
                    actions,
                    desired,
                    expand(actions, desired, f1, cur@, cur_cost, 0),
                    (SEARCH_LIMIT + 1 - iterations) as nat,
                ));
            }
        }
    }

    /// The plan that `search` finds, if it finds one: exactly the outcome
    /// `search_outcome` describes. There is none only when no path of available actions
    /// reaches the goal, or when the search passed its limit, which needs more than 4096
    /// different (end state, cost) pairs of paths through distinct states from `world`.
    pub fn plan(&self, world: &WorldState, goal: &Goal) -> (r: Option<Plan>)
        ensures
            satisfies_spec(world@, goal.desired@) ==> (r matches Some(p) && p.goal == goal.name
                && p.steps@.len() == 0 && p.cost == 0),
            r matches Some(p) ==> plan_for(self@, world@, *goal, p),
            r is None ==> no_plan(self@, world@, goal.desired@),
            match search_outcome(self@, world@, goal.desired@) {
                Outcome::Found(steps, cost) => r matches Some(p) && p.goal == goal.name && p.steps@
                    == steps && p.cost == cost,
                _ => r is None,
            },
    {
        match self.search(world, goal) {
            SearchEnd::Found(p) => Some(p),
            _ => None,
        }
    }
}

/// The search for `desired` from `world` finds no plan. Then `desired` does not hold
/// already, and no path of available actions reaches it, or more than 4096 different
/// (end state, cost) pairs of paths through distinct states start at `world`, so that the
/// search could stop at its limit.
pub open spec fn no_plan(actions: Seq<Action>, world: Seq<(Key, Value)>, desired: Seq<(Key, Value)>) -> bool {
    &&& !(search_outcome(actions, world, desired) is Found)
    &&& !satisfies_spec(world, desired)
    &&& (!reachable(actions, world, desired) || many_simple_walks(actions, world, (SEARCH_LIMIT + 1) as nat))
}

/// Goal `a` comes before goal `b` when goals are ranked by priority, highest first, and
/// goals of equal priority keep their order.
pub open spec fn ranked_before(goals: Seq<Goal>, a: int, b: int) -> bool {
    goals[a].priority > goals[b].priority || (goals[a].priority == goals[b].priority && a < b)
}

impl Planner {
    /// Plan for the goals in rank order (highest priority first, ties in the given order)
    /// and return the first goal that gets a plan, with the plan `plan` gives for it:
    /// every goal ranked before it gets no plan, and `None` means that no goal gets one.
    pub fn best_goal<'a>(&self, world: &WorldState, goals: &'a [Goal]) -> (r: Option<(&'a Goal, Plan)>)
        ensures
            r matches Some((g, p)) ==> exists|k: int|
                0 <= k < goals@.len() && *g == goals@[k] && plan_for(self@, world@, goals@[k], p)
                    && p.goal == goals@[k].name && search_outcome(self@, world@, goals@[k].desired@)
                    == Outcome::Found(p.steps@, p.cost)
                    && forall|j: int|
                    0 <= j < goals@.len() && ranked_before(goals@, j, k) ==> no_plan(self@, world@, #[trigger] goals@[j].desired@),
            r is None ==> forall|j: int|
                0 <= j < goals@.len() ==> no_plan(self@, world@, #[trigger] goals@[j].desired@),
    {
        // every goal with priority at or above `bound` has been tried
        let mut bound: u64 = 0x1_0000_0000;
        loop
            invariant
                bound <= 0x1_0000_0000,
                forall|j: int|
                    0 <= j < goals@.len() && goals@[j].priority >= bound ==> no_plan(self@, world@, #[trigger] goals@[j].desired@),
            decreases bound,
        {
            // the highest priority below `bound`
            let mut level: Option<u32> = None;
            let mut j: usize = 0;
            while j < goals.len()
                invariant
                    j <= goals@.len(),
                    bound <= 0x1_0000_0000,
                    level matches Some(l) ==> l < bound && exists|m: int| 0 <= m < j && goals@[m].priority == l,
                    forall|m: int|
                        0 <= m < j && goals@[m].priority < bound ==> (level matches Some(l)
                            && goals@[m].priority <= l),
                decreases goals@.len() - j,
            {
                let p = goals[j].priority;
                if (p as u64) < bound {
                    match level {
                        None => {
                            level = Some(p);
                        },
                        Some(l) => {
                            if p > l {
                                level = Some(p);
                            }
                        },
                    }
                }
                j += 1;
            }
            let l = match level {
                None => {
                    proof {
                        assert forall|m: int| 0 <= m < goals@.len() implies no_plan(self@, world@, #[trigger] goals@[m].desired@) by {
                            if goals@[m].priority < bound {
                            }
                        }
                    }
                    return None;
                },
                Some(l) => l,
            };
            let mut k: usize = 0;
            while k < goals.len()
                invariant
                    k <= goals@.len(),
                    (l as u64) < bound <= 0x1_0000_0000,
                    forall|m: int| 0 <= m < goals@.len() && goals@[m].priority < bound ==> goals@[m].priority <= l,
                    forall|m: int|
                        0 <= m < goals@.len() && goals@[m].priority >= bound ==> no_plan(self@, world@, #[trigger] goals@[m].desired@),
                    forall|m: int|
                        0 <= m < k && goals@[m].priority == l ==> no_plan(self@, world@, #[trigger] goals@[m].desired@),
                decreases goals@.len() - k,
            {
                if goals[k].priority == l {
                    let goal = &goals[k];
                    if let Some(plan) = self.plan(world, goal) {
                        proof {
                            assert forall|m: int|
                                0 <= m < goals@.len() && ranked_before(goals@, m, k as int) implies no_plan(self@, world@, #[trigger] goals@[m].desired@) by {
                                if goals@[m].priority < bound {
                                }
                            }
                        }
                        return Some((goal, plan));
                    }
                }
                k += 1;
            }
            proof {
                assert forall|m: int|
                    0 <= m < goals@.len() && goals@[m].priority >= l ==> no_plan(self@, world@, #[trigger] goals@[m].desired@) by {
                    if goals@[m].priority < bound {
                    }
                }
            }
            bound = l as u64;
        }
    }
}

impl Default for Planner {
    fn default() -> (r: Self)
        ensures
            r@ == Seq::<Action>::empty(),
    {
        Planner::new()
    }
}

} // verus!
