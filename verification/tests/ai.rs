use pointman::ai::planner::{Action, Goal, Planner, SearchEnd};
use pointman::ai::replica;
use pointman::ai::state::WorldState;

#[test]
fn reloads_then_attacks() {
    let planner = replica::planner();
    let world = WorldState::from_pairs(&[
        (replica::ALERT, 2),
        (replica::HAS_WEAPON, 1),
        (replica::WEAPON_LOADED, 0),
        (replica::TARGET_VISIBLE, 1),
    ]);
    let plan = planner.plan(&world, &replica::kill_enemy()).unwrap();
    assert_eq!(plan.steps, ["Reload", "Attack"]);
}

#[test]
fn patrol_when_idle() {
    let planner = replica::planner();
    let world = WorldState::from_pairs(&[(replica::ALERT, 0)]);
    let goals = [replica::kill_enemy(), replica::investigate(), replica::patrol()];
    let (goal, plan) = planner.best_goal(&world, &goals).unwrap();
    assert_eq!(goal.name, "Patrol");
    assert_eq!(plan.steps, ["Patrol"]);
}

#[test]
fn combat_beats_patrol() {
    let planner = replica::planner();
    let world = WorldState::from_pairs(&[
        (replica::ALERT, 2),
        (replica::HAS_WEAPON, 1),
        (replica::WEAPON_LOADED, 1),
        (replica::TARGET_VISIBLE, 1),
    ]);
    let goals = [replica::kill_enemy(), replica::patrol()];
    let (goal, plan) = planner.best_goal(&world, &goals).unwrap();
    assert_eq!(goal.name, "KillEnemy");
    assert_eq!(plan.steps, ["Attack"]);
}

#[test]
fn unset_keys_read_as_zero_and_zero_clears() {
    let mut s = WorldState::new();
    assert_eq!(s.get(9), 0);
    s.set(9, 4);
    assert_eq!(s.get(9), 4);
    s.set(9, 0);
    assert_eq!(s.get(9), 0);
    assert!(s.same(&WorldState::new()));
}

#[test]
fn applying_effects_satisfies_them() {
    let s = WorldState::from_pairs(&[(1, 5), (2, 7)]);
    let effects = WorldState::from_pairs(&[(2, 3), (4, 1)]);
    let t = s.apply(&effects);
    assert!(t.satisfies(&effects));
    assert_eq!(t.get(1), 5);
    assert_eq!(t.get(2), 3);
    assert_eq!(t.get(4), 1);
}

#[test]
fn heuristic_counts_unmet_facts() {
    let s = WorldState::from_pairs(&[(1, 5), (2, 7)]);
    let goal = WorldState::from_pairs(&[(1, 5), (2, 8), (3, 1)]);
    assert_eq!(s.heuristic(&goal), 2);
    assert!(!s.satisfies(&goal));
    assert_eq!(s.heuristic(&s), 0);
    assert!(s.satisfies(&s));
}

#[test]
fn satisfied_goal_needs_no_steps() {
    let planner = replica::planner();
    let world = WorldState::from_pairs(&[(replica::TARGET_DEAD, 1)]);
    let plan = planner.plan(&world, &replica::kill_enemy()).unwrap();
    assert!(plan.steps.is_empty());
    assert_eq!(plan.cost, 0);
}

#[test]
fn unreachable_goal_has_no_plan() {
    let planner = replica::planner();
    let world = WorldState::from_pairs(&[(replica::ALERT, 2)]);
    assert!(planner.plan(&world, &replica::kill_enemy()).is_none());
}

#[test]
fn action_availability_follows_preconditions() {
    let world = WorldState::from_pairs(&[(replica::ALERT, 1)]);
    let investigate = replica::investigate();
    let planner = replica::planner();
    let plan = planner.plan(&world, &investigate).unwrap();
    assert_eq!(plan.steps, ["Investigate"]);
}

#[test]
fn states_with_the_same_lookups_are_the_same() {
    let a = WorldState::from_pairs(&[(1, 5), (2, 0), (1, 0)]);
    assert!(a.same(&WorldState::new()));
    let b = WorldState::from_pairs(&[(3, 1), (1, 2)]);
    let c = WorldState::from_pairs(&[(1, 2), (3, 1)]);
    assert!(b.same(&c));
    assert!(b.satisfies(&WorldState::new()));
    let e = WorldState::from_pairs(&[(3, 7)]);
    let once = b.apply(&e);
    assert!(once.apply(&e).same(&once));
    assert!(once.satisfies(&e));
}

#[test]
fn senses_write_alert_sight_and_ammo() {
    let mut w = WorldState::from_pairs(&[(replica::WEAPON_LOADED, 1), (replica::HAS_WEAPON, 1)]);
    replica::sense(&mut w, 1, true, 14);
    assert_eq!(w.get(replica::ALERT), 1);
    assert_eq!(w.get(replica::TARGET_VISIBLE), 1);
    assert_eq!(w.get(replica::WEAPON_LOADED), 1);
    replica::sense(&mut w, 2, false, 15);
    assert_eq!(w.get(replica::WEAPON_LOADED), 1);
    assert_eq!(w.get(replica::TARGET_VISIBLE), 0);
    replica::sense(&mut w, 2, true, 21);
    assert_eq!(w.get(replica::WEAPON_LOADED), 0);
    assert_eq!(w.get(replica::HAS_WEAPON), 1);
}

#[test]
fn search_reports_how_it_ended() {
    let planner = replica::planner();
    let world = WorldState::from_pairs(&[(replica::ALERT, 1)]);
    match planner.search(&world, &replica::investigate()) {
        SearchEnd::Found(p) => assert_eq!(p.steps, ["Investigate"]),
        other => panic!("got {other:?}"),
    }
    let empty = Planner::new();
    let goal = Goal { name: "Far", desired: WorldState::from_pairs(&[(40, 1)]), priority: 1 };
    assert!(matches!(empty.search(&world, &goal), SearchEnd::Exhausted));
    assert!(empty.plan(&world, &goal).is_none());
    let mut one = Planner::new();
    one.add_action(Action {
        name: "Toggle",
        cost: 1,
        pre: WorldState::new(),
        effects: WorldState::from_pairs(&[(41, 1)]),
    });
    assert!(matches!(one.search(&world, &goal), SearchEnd::Exhausted));
}

#[test]
fn best_goal_skips_goals_without_a_plan() {
    let mut planner = Planner::new();
    planner.add_action(Action {
        name: "Walk",
        cost: 2,
        pre: WorldState::new(),
        effects: WorldState::from_pairs(&[(1, 1)]),
    });
    let world = WorldState::new();
    let goals = [
        Goal { name: "Fly", desired: WorldState::from_pairs(&[(9, 1)]), priority: 9 },
        Goal { name: "Arrive", desired: WorldState::from_pairs(&[(1, 1)]), priority: 1 },
    ];
    let (goal, plan) = planner.best_goal(&world, &goals).unwrap();
    assert_eq!(goal.name, "Arrive");
    assert_eq!(plan.steps, ["Walk"]);
    assert_eq!(plan.cost, 2);
    assert!(planner.best_goal(&world, &goals[..1]).is_none());
}

#[test]
fn equal_states_compare_equal() {
    assert_eq!(WorldState::from_pairs(&[(1, 5), (2, 0), (1, 0)]), WorldState::default());
    assert_eq!(WorldState::from_pairs(&[(3, 1), (1, 2)]), WorldState::from_pairs(&[(1, 2), (3, 1)]));
    assert_ne!(WorldState::from_pairs(&[(3, 1)]), WorldState::new());
}
