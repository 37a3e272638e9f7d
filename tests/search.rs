use std::time::Instant;
use zombie_agent::agent::{choose_strategies, update_pool, PoolEntry};
use zombie_agent::evaluation::{ScoreAccumulator, ScoreParams, DISCOUNT_ONE, MULTIPLIER_ONE};
use zombie_agent::geometry::V2;
use zombie_agent::model::{Ash, Event, Human, Milestone, Strategy, World, Zombie};
use zombie_agent::mutations::{bump_at, clamp, displace_at, mutate_strategy, mutate_with, nth_move_index, RangeRandom};
use zombie_agent::rollouts::{rollout, Rollout, WorldState};

fn p(x: i64, y: i64) -> V2 {
    V2 { x, y }
}

fn sample_world() -> World {
    World {
        tick: 0,
        ash: Ash { pos: p(8000, 4500) },
        humans: vec![Human { id: 1, pos: p(1000, 1000) }, Human { id: 2, pos: p(15000, 8000) }],
        zombies: vec![
            Zombie { id: 1, pos: p(3000, 1000), next: p(2600, 1000) },
            Zombie { id: 2, pos: p(12000, 8000), next: p(12400, 8000) },
        ],
    }
}

#[test]
fn search_improves_on_previous() {
    let mut rng = rand::thread_rng();
    let w = sample_world();
    let sheet = ScoreParams::gen_sheet(&mut rng, 10);
    let empty = rollout(Strategy::new(0), &w, &sheet);
    let result = choose_strategies(&w, &sheet, vec![Strategy::new(0)], &mut rng);
    assert_eq!(result.len(), sheet.len());
    for (i, s) in result.iter().enumerate() {
        let r = rollout(s.seed(s.id), &w, &sheet);
        assert!(r.scores[i] >= empty.scores[i]);
    }
}

#[test]
fn search_returns_in_time() {
    let mut rng = rand::thread_rng();
    let w = sample_world();
    let sheet = ScoreParams::gen_sheet(&mut rng, 10);
    let start = Instant::now();
    let result = choose_strategies(&w, &sheet, Vec::new(), &mut rng);
    assert!(start.elapsed().as_millis() < 120);
    assert_eq!(result.len(), 11);
}

#[test]
fn search_keeps_a_better_previous_plan() {
    let mut rng = rand::thread_rng();
    let w = World {
        tick: 0,
        ash: Ash { pos: p(0, 0) },
        humans: vec![Human { id: 1, pos: p(8000, 4500) }],
        zombies: vec![Zombie { id: 1, pos: p(1500, 0), next: p(1500, 0) }],
    };
    let sheet = vec![ScoreParams::official()];
    let mut plan = Strategy::new(5);
    plan.milestones.push(Milestone::KillZombie { zombie_id: 1 });
    let best = rollout(plan.seed(5), &w, &sheet);
    let result = choose_strategies(&w, &sheet, vec![plan], &mut rng);
    let r = rollout(result[0].seed(0), &w, &sheet);
    assert!(r.scores[0] >= best.scores[0]);
}

#[test]
fn pool_scores_never_drop() {
    let w = sample_world();
    let sheet = vec![ScoreParams::official(), ScoreParams::official()];
    let entry = |score: i128| PoolEntry {
        strategy: Strategy::new(0),
        score,
        actual: score,
        ending: WorldState::new(),
    };
    let mut pool = vec![entry(-5), entry(100)];
    let candidate = Rollout {
        strategy: Strategy::new(9),
        events: Vec::new(),
        ending: WorldState { tick: 3, num_zombies: 0, num_humans: 1 },
        scores: vec![7, 50],
    };
    update_pool(&mut pool, &candidate);
    assert_eq!(pool[0].score, 7);
    assert_eq!(pool[0].actual, 7);
    assert_eq!(pool[0].ending, candidate.ending);
    assert_eq!(pool[1].score, 100);
    let worse = Rollout {
        strategy: Strategy::new(10),
        events: Vec::new(),
        ending: WorldState::new(),
        scores: vec![7, -1000],
    };
    update_pool(&mut pool, &worse);
    assert_eq!(pool[0].score, 7);
    assert_eq!(pool[0].strategy.id, 9);
    assert_eq!(pool[1].score, 100);
    let _ = (w, sheet);
}

#[test]
fn official_parameters() {
    let o = ScoreParams::official();
    assert_eq!(o.kill_zombies_multiplier, MULTIPLIER_ONE);
    assert_eq!(o.save_humans_multiplier, 0);
    assert_eq!(o.discount_rate, DISCOUNT_ONE);
}

#[test]
fn random_parameters_in_range() {
    let mut rng = rand::thread_rng();
    let sheet = ScoreParams::gen_sheet(&mut rng, 10);
    assert_eq!(sheet.len(), 11);
    assert_eq!(sheet[0], ScoreParams::official());
    for _ in 0..200 {
        let g = ScoreParams::gen(&mut rng);
        assert!(g.kill_zombies_multiplier < MULTIPLIER_ONE);
        assert!(g.save_humans_multiplier < MULTIPLIER_ONE);
        assert!(g.discount_rate >= DISCOUNT_ONE && g.discount_rate < 2 * DISCOUNT_ONE);
    }
}

#[test]
fn event_contributions() {
    let w = World::new();
    let o = ScoreParams::official();
    let mut acc = ScoreAccumulator::new(&w, &o);
    acc.accumulate(&vec![
        Event::ZombieKilled { tick: 3, zombie_id: 1, score: 10 },
        Event::HumanKilled { tick: 3, human_id: 2 },
        Event::Won { tick: 4, num_humans: 1 },
    ]);
    assert_eq!(acc.total_score, 10_000 - 40);
    let mut lost = ScoreAccumulator::new(&w, &o);
    lost.accumulate(&vec![Event::Lost { tick: 7, num_zombies: 2 }]);
    assert_eq!(lost.total_score, -70 - 2_000_000);
    let mut plan = Strategy::new(0);
    plan.milestones.push(Milestone::MoveTo { target: p(1, 1) });
    plan.milestones.push(Milestone::MoveTo { target: p(2, 1) });
    lost.evaluate_strategy(&plan);
    assert_eq!(lost.total_score, -70 - 2_000_000 - 2);
}

#[test]
fn discounted_contributions() {
    let w = World::new();
    let half = ScoreParams { save_humans_multiplier: 500, kill_zombies_multiplier: 1000, discount_rate: 2 * DISCOUNT_ONE };
    let acc = ScoreAccumulator::new(&w, &half);
    assert_eq!(acc.discount(0), DISCOUNT_ONE as u128);
    assert_eq!(acc.discount(1), (DISCOUNT_ONE / 2) as u128);
    assert_eq!(acc.discount(2), (DISCOUNT_ONE / 4) as u128);
    let mut acc = acc;
    acc.accumulate(&vec![Event::ZombieKilled { tick: 1, zombie_id: 1, score: 10 }]);
    assert_eq!(acc.total_score, 5000);
    acc.accumulate(&vec![Event::HumanKilled { tick: 2, human_id: 1 }]);
    // half of the save multiplier, a quarter for the discount
    assert_eq!(acc.total_score, 5000 - 125_000);
}

#[test]
fn upper_bound_counts_remaining_zombies() {
    let w = World {
        tick: 0,
        ash: Ash { pos: p(0, 0) },
        humans: vec![Human { id: 1, pos: p(1, 1) }, Human { id: 2, pos: p(2, 2) }],
        zombies: vec![
            Zombie { id: 1, pos: p(5000, 0), next: p(5000, 0) },
            Zombie { id: 2, pos: p(6000, 0), next: p(6000, 0) },
            Zombie { id: 3, pos: p(7000, 0), next: p(7000, 0) },
        ],
    };
    let acc = ScoreAccumulator::new(&w, &ScoreParams::official());
    // (1 + 2 + 3) * 10 * 2 * 2 points
    assert_eq!(acc.upper_bound(&w), 240_000);
}

#[test]
fn mutations_keep_plans_on_the_map() {
    let mut rng = rand::thread_rng();
    let w = sample_world();
    let mut plan = Strategy::new(2);
    plan.milestones.push(Milestone::MoveTo { target: p(100, 100) });
    plan.milestones.push(Milestone::KillZombie { zombie_id: 1 });
    let mut changed = 0;
    for _ in 0..500 {
        let before = plan.milestones.clone();
        if mutate_strategy(&mut plan, &w, &mut rng) {
            changed += 1;
        } else {
            assert_eq!(plan.milestones, before);
        }
        assert_eq!(plan.id, 2);
        for m in plan.milestones.iter() {
            if let Milestone::MoveTo { target } = m {
                assert!(target.x >= -1_000_000 && target.x <= 1_000_000);
            }
        }
    }
    assert!(changed > 0);
}

#[test]
fn clamp_and_ranges() {
    assert_eq!(clamp(-5, 0, 10), 0);
    assert_eq!(clamp(15, 0, 10), 10);
    assert_eq!(clamp(7, 0, 10), 7);
    let mut rng = rand::thread_rng();
    let rr = RangeRandom { max_length: 10, power: 2 };
    for _ in 0..200 {
        let v = rr.gen(3..8, &mut rng);
        assert!(v >= 3 && v < 8);
    }
    let none = RangeRandom { max_length: 0, power: 2 };
    assert_eq!(none.gen(4..9, &mut rng), 4);
}

fn plan_of(n: usize) -> Strategy {
    let mut s = Strategy::new(1);
    for i in 0..n {
        s.milestones.push(Milestone::MoveTo { target: p((i % 100) as i64, 7) });
    }
    s
}

#[test]
fn long_plans_still_mutate() {
    let mut rng = rand::thread_rng();
    let w = sample_world();
    let mut plan = plan_of(1500);
    let mut attack = [false; 8];
    attack[3] = true;
    assert!(mutate_with(&mut plan, &w, attack, &mut rng));
    assert_eq!(plan.milestones.len(), 1501);
    assert_eq!(plan.milestones.iter().filter(|m| matches!(m, Milestone::KillZombie { .. })).count(), 1);
    let mut replace = [false; 8];
    replace[1] = true;
    assert!(mutate_with(&mut plan, &w, replace, &mut rng));
    let moves_in_map = plan.milestones.iter().any(|m| match m {
        Milestone::MoveTo { target } => target.x >= 0 && target.x < 16000 && target.y >= 0 && target.y < 9000 && !(target.y == 7 && target.x < 100),
        _ => false,
    });
    assert!(moves_in_map);
    let sheet = vec![ScoreParams::official()];
    let r = rollout(plan, &w, &sheet);
    assert_eq!(r.scores.len(), 1);
}

#[test]
fn first_applicable_trial_wins() {
    let mut rng = rand::thread_rng();
    let w = sample_world();
    // no MoveTo to bump and nothing to drop: the insertion of an attack runs
    let mut plan = Strategy::new(4);
    let mut trials = [false; 8];
    trials[0] = true;
    trials[2] = true;
    trials[3] = true;
    trials[4] = true;
    assert!(mutate_with(&mut plan, &w, trials, &mut rng));
    assert_eq!(plan.milestones.len(), 1);
    assert!(matches!(plan.milestones[0], Milestone::KillZombie { .. }));
    let before = plan.milestones.clone();
    assert!(!mutate_with(&mut plan, &w, [false; 8], &mut rng));
    assert_eq!(plan.milestones, before);
    // every zombie pursued and no human: nothing applies
    let mut all = Strategy::new(5);
    all.milestones.push(Milestone::KillZombie { zombie_id: 1 });
    all.milestones.push(Milestone::KillZombie { zombie_id: 2 });
    let empty_humans = World { tick: 0, ash: Ash { pos: p(0, 0) }, humans: Vec::new(), zombies: w.zombies.clone() };
    let mut only = [false; 8];
    only[3] = true;
    only[4] = true;
    assert!(!mutate_with(&mut all, &empty_humans, only, &mut rng));
    assert_eq!(all.milestones.len(), 2);
}

#[test]
fn bump_the_chosen_move() {
    let mut ms = vec![
        Milestone::KillZombie { zombie_id: 1 },
        Milestone::MoveTo { target: p(10, 10) },
        Milestone::KillZombie { zombie_id: 2 },
        Milestone::MoveTo { target: p(15990, 20) },
    ];
    assert_eq!(nth_move_index(&ms, 0), Some(1));
    assert_eq!(nth_move_index(&ms, 1), Some(3));
    assert_eq!(nth_move_index(&ms, 2), None);
    assert_eq!(bump_at(&mut ms, 1, 50, -30), 3);
    assert_eq!(ms[3], Milestone::MoveTo { target: p(16000, 0) });
    assert_eq!(bump_at(&mut ms, 0, -3001, 3001), 1);
    assert_eq!(ms[1], Milestone::MoveTo { target: p(0, 3011) });
}

#[test]
fn displace_a_section() {
    let m = |i: i32| Milestone::KillZombie { zombie_id: i };
    let mut ms: Vec<Milestone> = (0..6).map(m).collect();
    displace_at(&mut ms, 1, 2, 3, false);
    assert_eq!(ms, vec![m(0), m(3), m(4), m(1), m(2), m(5)]);
    let mut ms: Vec<Milestone> = (0..6).map(m).collect();
    displace_at(&mut ms, 3, 3, 0, true);
    assert_eq!(ms, vec![m(5), m(4), m(3), m(0), m(1), m(2)]);
}

#[test]
fn section_lengths_stay_under_the_zombie_count() {
    let mut rng = rand::thread_rng();
    let rr = RangeRandom { max_length: 3, power: 2 };
    for _ in 0..500 {
        assert!(rr.gen(0..100, &mut rng) < 3);
    }
}

#[test]
fn plan_zero_is_best_under_the_official_objective() {
    let mut rng = rand::thread_rng();
    let w = sample_world();
    let sheet = ScoreParams::gen_sheet(&mut rng, 10);
    let result = choose_strategies(&w, &sheet, vec![plan_of(3)], &mut rng);
    let best = rollout(result[0].seed(0), &w, &sheet).scores[0];
    for s in result.iter() {
        assert!(rollout(s.seed(0), &w, &sheet).scores[0] <= best);
    }
}
