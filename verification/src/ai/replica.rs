//! Replica-style combat vocabulary used by the demo soldier.
use vstd::prelude::*;

use super::planner::{Action, Goal, Planner};
use super::state::{pairs_val, val, Key, Value, WorldState};

verus! {

pub const TARGET_DEAD: Key = 1;

pub const WEAPON_LOADED: Key = 2;

pub const IN_COVER: Key = 3;

pub const TARGET_VISIBLE: Key = 4;

pub const HAS_WEAPON: Key = 5;

pub const AT_LOCATION: Key = 6;

/// 0 patrol, 1 investigate, 2 combat.
pub const ALERT: Key = 7;

pub const LOC_PATROL: Value = 1;

pub const LOC_DISTURBANCE: Value = 2;

pub const LOC_COVER: Value = 3;

pub const LOC_ENGAGE: Value = 4;

/// The state that holds exactly the facts `pairs` (each key once, values nonzero).
pub open spec fn holds_exactly(s: Seq<(Key, Value)>, pairs: Seq<(Key, Value)>) -> bool {
    forall|k: Key| #[trigger] val(s, k) == pairs_val(pairs, k)
}

fn state1(a: (Key, Value)) -> (r: WorldState)
    ensures
        holds_exactly(r@, seq![a]),
{
    let pairs = [a];
    let r = WorldState::from_pairs(&pairs);
    assert(pairs@ =~= seq![a]);
    r
}

fn state2(a: (Key, Value), b: (Key, Value)) -> (r: WorldState)
    ensures
        holds_exactly(r@, seq![a, b]),
{
    let pairs = [a, b];
    let r = WorldState::from_pairs(&pairs);
    assert(pairs@ =~= seq![a, b]);
    r
}

fn state4(a: (Key, Value), b: (Key, Value), c: (Key, Value), d: (Key, Value)) -> (r: WorldState)
    ensures
        holds_exactly(r@, seq![a, b, c, d]),
{
    let pairs = [a, b, c, d];
    let r = WorldState::from_pairs(&pairs);
    assert(pairs@ =~= seq![a, b, c, d]);
    r
}

/// The soldier's actions: Patrol, Investigate, TakeCover, Reload, Advance, Attack,
/// Suppress, in this order.
pub fn planner() -> (p: Planner)
    ensures
        p@.len() == 7,
        p@[0].name == "Patrol" && p@[0].cost == 5,
        holds_exactly(p@[0].pre@, seq![(ALERT, 0i32)]),
        holds_exactly(p@[0].effects@, seq![(AT_LOCATION, LOC_PATROL)]),
        p@[1].name == "Investigate" && p@[1].cost == 3,
        holds_exactly(p@[1].pre@, seq![(ALERT, 1i32)]),
        holds_exactly(p@[1].effects@, seq![(AT_LOCATION, LOC_DISTURBANCE)]),
        p@[2].name == "TakeCover" && p@[2].cost == 2,
        holds_exactly(p@[2].pre@, seq![(ALERT, 2i32), (HAS_WEAPON, 1i32)]),
        holds_exactly(p@[2].effects@, seq![(IN_COVER, 1i32), (AT_LOCATION, LOC_COVER)]),
        p@[3].name == "Reload" && p@[3].cost == 2,
        holds_exactly(p@[3].pre@, seq![(HAS_WEAPON, 1i32), (WEAPON_LOADED, 0i32)]),
        holds_exactly(p@[3].effects@, seq![(WEAPON_LOADED, 1i32)]),
        p@[4].name == "Advance" && p@[4].cost == 3,
        holds_exactly(p@[4].pre@, seq![(ALERT, 2i32), (HAS_WEAPON, 1i32)]),
        holds_exactly(p@[4].effects@, seq![(AT_LOCATION, LOC_ENGAGE), (TARGET_VISIBLE, 1i32)]),
        p@[5].name == "Attack" && p@[5].cost == 1,
        holds_exactly(
            p@[5].pre@,
            seq![(ALERT, 2i32), (HAS_WEAPON, 1i32), (WEAPON_LOADED, 1i32), (TARGET_VISIBLE, 1i32)],
        ),
        holds_exactly(p@[5].effects@, seq![(TARGET_DEAD, 1i32)]),
        p@[6].name == "Suppress" && p@[6].cost == 2,
        holds_exactly(
            p@[6].pre@,
            seq![(ALERT, 2i32), (IN_COVER, 1i32), (WEAPON_LOADED, 1i32), (TARGET_VISIBLE, 1i32)],
        ),
        holds_exactly(p@[6].effects@, seq![(TARGET_VISIBLE, 1i32)]),
{
    let mut p = Planner::new();
    p.add_action(
        Action {
            name: "Patrol",
            cost: 5,
            pre: state1((ALERT, 0)),
            effects: state1((AT_LOCATION, LOC_PATROL)),
        },
    );
    p.add_action(
        Action {
            name: "Investigate",
            cost: 3,
            pre: state1((ALERT, 1)),
            effects: state1((AT_LOCATION, LOC_DISTURBANCE)),
        },
    );
    p.add_action(
        Action {
            name: "TakeCover",
            cost: 2,
            pre: state2((ALERT, 2), (HAS_WEAPON, 1)),
            effects: state2((IN_COVER, 1), (AT_LOCATION, LOC_COVER)),
        },
    );
    p.add_action(
        Action {
            name: "Reload",
            cost: 2,
            pre: state2((HAS_WEAPON, 1), (WEAPON_LOADED, 0)),
            effects: state1((WEAPON_LOADED, 1)),
        },
    );
    p.add_action(
        Action {
            name: "Advance",
            cost: 3,
            pre: state2((ALERT, 2), (HAS_WEAPON, 1)),
            effects: state2((AT_LOCATION, LOC_ENGAGE), (TARGET_VISIBLE, 1)),
        },
    );
    p.add_action(
        Action {
            name: "Attack",
            cost: 1,
            pre: state4((ALERT, 2), (HAS_WEAPON, 1), (WEAPON_LOADED, 1), (TARGET_VISIBLE, 1)),
            effects: state1((TARGET_DEAD, 1)),
        },
    );
    p.add_action(
        Action {
            name: "Suppress",
            cost: 2,
            pre: state4((ALERT, 2), (IN_COVER, 1), (WEAPON_LOADED, 1), (TARGET_VISIBLE, 1)),
            effects: state1((TARGET_VISIBLE, 1)),
        },
    );
    p
}

/// Kill the enemy: `TARGET_DEAD` = 1, priority 100.
pub fn kill_enemy() -> (g: Goal)
    ensures
        g.name == "KillEnemy",
        g.priority == 100,
        holds_exactly(g.desired@, seq![(TARGET_DEAD, 1i32)]),
{
    Goal { name: "KillEnemy", desired: state1((TARGET_DEAD, 1)), priority: 100 }
}

/// Investigate a disturbance: `AT_LOCATION` = `LOC_DISTURBANCE`, priority 40.
pub fn investigate() -> (g: Goal)
    ensures
        g.name == "InvestigateDisturbance",
        g.priority == 40,
        holds_exactly(g.desired@, seq![(AT_LOCATION, LOC_DISTURBANCE)]),
{
    Goal {
        name: "InvestigateDisturbance",
        desired: state1((AT_LOCATION, LOC_DISTURBANCE)),
        priority: 40,
    }
}

/// Patrol: `AT_LOCATION` = `LOC_PATROL`, priority 10.
pub fn patrol() -> (g: Goal)
    ensures
        g.name == "Patrol",
        g.priority == 10,
        holds_exactly(g.desired@, seq![(AT_LOCATION, LOC_PATROL)]),
{
    Goal { name: "Patrol", desired: state1((AT_LOCATION, LOC_PATROL)), priority: 10 }
}

/// The replica's senses for one tick, written into its world state: how alert it is
/// (0 calm, 1 suspicious, 2 in combat), whether it sees its target, and, in combat on
/// every seventh whole second of play, an emptied magazine.
pub fn sense(world: &mut WorldState, alert: Value, target_visible: bool, seconds: i32)
    ensures
        forall|k: Key|
            #[trigger] val(final(world)@, k) == if k == ALERT {
                alert
            } else if k == TARGET_VISIBLE {
                if target_visible {
                    1
                } else {
                    0
                }
            } else if k == WEAPON_LOADED && alert == 2 && seconds % 7 == 0 {
                0
            } else {
                val(old(world)@, k)
            },
{
    world.set(ALERT, alert);
    world.set(TARGET_VISIBLE, if target_visible { 1 } else { 0 });
    if alert == 2 && seconds % 7 == 0 {
        world.set(WEAPON_LOADED, 0);
    }
}

} // verus!
