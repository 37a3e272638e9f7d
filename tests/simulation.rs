use zombie_agent::geometry::V2;
use zombie_agent::milestones::from_milestone;
use zombie_agent::model::{Action, Ash, Event, Human, Milestone, Strategy, World, Zombie};
use zombie_agent::rollouts::{rollout, strategy_to_action, WorldState};
use zombie_agent::evaluation::{ScoreAccumulator, ScoreParams};
use zombie_agent::simulator::{calculate_zombie_kill_score, next, FibonacciSequence};

fn p(x: i64, y: i64) -> V2 {
    V2 { x, y }
}

fn human(id: i32, x: i64, y: i64) -> Human {
    Human { id, pos: p(x, y) }
}

fn zombie(id: i32, x: i64, y: i64, nx: i64, ny: i64) -> Zombie {
    Zombie { id, pos: p(x, y), next: p(nx, ny) }
}

fn world(player: V2, humans: Vec<Human>, zombies: Vec<Zombie>) -> World {
    World { tick: 0, ash: Ash { pos: player }, humans, zombies }
}

fn kill_plan(id: i32) -> Strategy {
    let mut s = Strategy::new(1);
    s.milestones.push(Milestone::KillZombie { zombie_id: id });
    s
}

#[test]
fn single_zombie_single_human() {
    let mut w = world(p(0, 0), vec![human(1, 8000, 4500)], vec![zombie(1, 0, 4500, 400, 4500)]);
    let action = strategy_to_action(&kill_plan(1), &w);
    assert_eq!(action.target, p(400, 4500));
    let events = next(&mut w, &action);
    assert!(events.is_empty());
    assert_eq!(w.zombies[0].pos, p(400, 4500));
    assert_eq!(w.ash.pos, p(88, 996));
    assert_eq!(w.tick, 1);
}

#[test]
fn zombie_already_in_kill_range() {
    let mut w = world(p(0, 0), vec![human(1, 8000, 4500)], vec![zombie(1, 1500, 0, 1500, 0)]);
    let action = strategy_to_action(&kill_plan(1), &w);
    assert_eq!(action.target, p(1500, 0));
    let events = next(&mut w, &action);
    assert_eq!(w.ash.pos, p(1000, 0));
    assert_eq!(
        events,
        vec![
            Event::ZombieKilled { tick: 1, zombie_id: 1, score: 10 },
            Event::Won { tick: 1, num_humans: 1 },
        ]
    );
}

#[test]
fn two_zombies_killed_in_one_tick() {
    let mut w = world(
        p(0, 0),
        vec![human(1, 8000, 4500)],
        vec![zombie(1, 1500, 0, 1500, 0), zombie(2, 1500, 1, 1500, 1)],
    );
    let events = next(&mut w, &Action { target: p(1500, 0) });
    assert_eq!(
        events,
        vec![
            Event::ZombieKilled { tick: 1, zombie_id: 1, score: 10 },
            Event::ZombieKilled { tick: 1, zombie_id: 2, score: 20 },
            Event::Won { tick: 1, num_humans: 1 },
        ]
    );
}

#[test]
fn human_about_to_be_eaten() {
    let mut w = world(p(0, 0), vec![human(1, 5000, 5000)], vec![zombie(1, 5000, 5000, 5000, 5000)]);
    let events = next(&mut w, &Action { target: p(0, 0) });
    assert_eq!(
        events,
        vec![Event::HumanKilled { tick: 1, human_id: 1 }, Event::Lost { tick: 1, num_zombies: 1 }]
    );
    assert!(w.humans.is_empty());
}

#[test]
fn empty_strategy_rollout_terminates() {
    let w = world(p(16000, 9000), vec![human(1, 0, 0)], vec![zombie(1, 10000, 0, 9600, 0)]);
    let sheet = vec![ScoreParams::official()];
    let r = rollout(Strategy::new(0), &w, &sheet);
    assert_eq!(r.ending, WorldState { tick: 25, num_zombies: 1, num_humans: 0 });
    assert_eq!(r.events.last(), Some(&Event::Lost { tick: 25, num_zombies: 1 }));
    assert_eq!(r.events.len(), 2);
    // -0.01 * 25 - 1000 * 1 points, in thousandths
    assert_eq!(r.scores, vec![-1_000_250]);
}

#[test]
fn kill_scores_follow_fibonacci() {
    let mut w = world(
        p(0, 0),
        vec![human(1, 8000, 4500), human(2, 9000, 4500)],
        vec![zombie(1, 100, 0, 100, 0), zombie(2, 200, 0, 200, 0), zombie(3, 300, 0, 300, 0)],
    );
    let events = next(&mut w, &Action { target: p(0, 0) });
    let scores: Vec<u128> = events
        .iter()
        .filter_map(|e| match e {
            Event::ZombieKilled { score, .. } => Some(*score),
            _ => None,
        })
        .collect();
    assert_eq!(scores, vec![40, 80, 120]);
}

#[test]
fn fibonacci_sequence_values() {
    let mut f = FibonacciSequence::new();
    let got: Vec<u128> = (0..8).map(|_| f.next()).collect();
    assert_eq!(got, vec![1, 2, 3, 5, 8, 13, 21, 34]);
}

#[test]
fn kill_score_base() {
    assert_eq!(calculate_zombie_kill_score(0), 0);
    assert_eq!(calculate_zombie_kill_score(3), 90);
    assert_eq!(calculate_zombie_kill_score(100), 100000);
    assert_eq!(calculate_zombie_kill_score(1000), 10_000_000);
}

#[test]
fn population_never_grows() {
    let mut w = world(
        p(3000, 3000),
        vec![human(1, 1000, 1000), human(2, 8000, 8000)],
        vec![zombie(1, 1000, 1400, 1000, 1000), zombie(2, 6000, 6000, 6300, 6300)],
    );
    let mut counts = vec![(w.humans.len(), w.zombies.len())];
    for _ in 0..30 {
        next(&mut w, &Action { target: p(8000, 8000) });
        counts.push((w.humans.len(), w.zombies.len()));
    }
    for pair in counts.windows(2) {
        assert!(pair[1].0 <= pair[0].0);
        assert!(pair[1].1 <= pair[0].1);
    }
    assert_eq!(counts[1].0, 1);
}

#[test]
fn terminal_event_comes_last() {
    let w = world(p(0, 0), vec![human(1, 8000, 4500)], vec![zombie(1, 1500, 0, 1500, 0)]);
    let sheet = vec![ScoreParams::official()];
    let r = rollout(kill_plan(1), &w, &sheet);
    let n = r.events.len();
    assert!(n > 0);
    assert!(r.events[n - 1].is_ending());
    assert!(r.events[..n - 1].iter().all(|e| !e.is_ending()));
    // nothing happens in a world that is over
    let mut over = world(p(0, 0), vec![human(1, 8000, 4500)], vec![]);
    assert!(next(&mut over, &Action { target: p(5, 5) }).is_empty());
    assert_eq!(over.tick, 1);
    assert_eq!(over.ash.pos, p(0, 0));
}

#[test]
fn simulator_is_deterministic() {
    let w = world(
        p(4000, 2000),
        vec![human(1, 1000, 1000), human(2, 9000, 3000)],
        vec![zombie(1, 3000, 6000, 3100, 5700), zombie(2, 7000, 2000, 7400, 2000)],
    );
    let mut a = w.duplicate();
    let mut b = w.duplicate();
    let action = Action { target: p(7000, 2500) };
    let ea = next(&mut a, &action);
    let eb = next(&mut b, &action);
    assert_eq!(ea, eb);
    assert_eq!(a.ash, b.ash);
    assert_eq!(a.humans, b.humans);
    assert_eq!(a.zombies, b.zombies);
}

#[test]
fn step_is_clamped_and_floored() {
    let o = p(0, 0);
    assert_eq!(o.towards(p(5000, 5000), 1000), p(707, 707));
    assert_eq!(o.towards(p(300, 400), 1000), p(300, 400));
    let s = o.towards(p(-3000, -1), 1000);
    assert_eq!(s, p(-1000, -1));
    assert!(s.x.abs() <= 1000 && s.y.abs() <= 1000);
    let mut w = world(p(100, 100), vec![human(1, 9000, 9000)], vec![zombie(1, 15000, 100, 14600, 100)]);
    next(&mut w, &Action { target: p(8100, 6100) });
    assert_eq!(w.ash.pos, p(900, 700));
    assert!(V2::distance_squared(p(100, 100), w.ash.pos) <= 1000 * 1000);
}

#[test]
fn zombies_chase_the_closest_target() {
    let mut w = world(p(0, 0), vec![human(1, 3000, 0), human(2, 0, 3000)], vec![zombie(1, 1000, 1000, 1000, 1000)]);
    next(&mut w, &Action { target: p(0, 0) });
    // the zombie was killed: it stood within reach of the player
    assert!(w.zombies.is_empty());
    let mut w = world(p(0, 9000), vec![human(1, 6000, 0), human(2, 0, 6000)], vec![zombie(1, 3000, 3000, 3000, 3000)]);
    next(&mut w, &Action { target: p(0, 9000) });
    // a tie between the two humans goes to the first one listed
    assert_eq!(w.zombies[0].next, p(3282, 2717));
}

#[test]
fn milestone_compilation() {
    let w = world(p(100, 100), vec![human(1, 100, 100), human(2, 500, 500)], vec![zombie(7, 10, 10, 20, 20)]);
    let k = Milestone::KillZombie { zombie_id: 7 };
    assert_eq!(k.to_action(&w), Some(Action { target: p(20, 20) }));
    assert_eq!(Milestone::KillZombie { zombie_id: 8 }.to_action(&w), None);
    assert_eq!(Milestone::ProtectHuman { human_id: 1 }.to_action(&w), None);
    assert_eq!(Milestone::ProtectHuman { human_id: 2 }.to_action(&w), Some(Action { target: p(500, 500) }));
    assert_eq!(Milestone::ProtectHuman { human_id: 3 }.to_action(&w), None);
    assert_eq!(Milestone::MoveTo { target: p(100, 100) }.to_action(&w), None);
    assert_eq!(from_milestone(&Milestone::MoveTo { target: p(101, 100) }, &w), Some(Action { target: p(101, 100) }));
    // compiling leaves the world as it was
    assert_eq!(w.ash.pos, p(100, 100));
    assert_eq!(w.humans.len(), 2);
    assert_eq!(w.zombies.len(), 1);
}

#[test]
fn emitter_skips_done_milestones() {
    let w = world(p(100, 100), vec![human(1, 100, 100)], vec![zombie(7, 10, 10, 20, 20)]);
    let mut s = Strategy::new(3);
    s.milestones.push(Milestone::KillZombie { zombie_id: 9 });
    s.milestones.push(Milestone::ProtectHuman { human_id: 1 });
    s.milestones.push(Milestone::MoveTo { target: p(600, 100) });
    assert_eq!(strategy_to_action(&s, &w), Action { target: p(600, 100) });
    assert_eq!(strategy_to_action(&Strategy::new(4), &w), Action { target: p(100, 100) });
}

#[test]
fn world_validity() {
    let w = world(p(0, 0), vec![human(1, 0, 0), human(2, 5, 5)], vec![zombie(1, 1, 1, 2, 2)]);
    assert!(w.is_valid());
    let dup = world(p(0, 0), vec![human(1, 0, 0), human(1, 5, 5)], vec![]);
    assert!(!dup.is_valid());
    let far = world(p(2_000_000, 0), vec![], vec![]);
    assert!(!far.is_valid());
    assert!(World::new().is_valid());
    assert_eq!(WorldState::new(), WorldState { tick: -1, num_zombies: 0, num_humans: 0 });
    assert_eq!(WorldState::from(&w), WorldState { tick: 0, num_zombies: 1, num_humans: 2 });
}

#[test]
fn kills_never_exceed_the_upper_bound() {
    let w = world(
        p(0, 0),
        vec![human(1, 8000, 4500), human(2, 100, 8000)],
        vec![zombie(1, 1500, 0, 1500, 0), zombie(2, 3000, 3000, 2800, 2700), zombie(3, 9000, 100, 8700, 300)],
    );
    let sheet = vec![ScoreParams::official()];
    let mut plan = kill_plan(1);
    plan.milestones.push(Milestone::KillZombie { zombie_id: 2 });
    plan.milestones.push(Milestone::KillZombie { zombie_id: 3 });
    let r = rollout(plan, &w, &sheet);
    let total: u128 = r
        .events
        .iter()
        .filter_map(|e| match e {
            Event::ZombieKilled { score, .. } => Some(*score),
            _ => None,
        })
        .sum();
    assert!(total > 0);
    let acc = ScoreAccumulator::new(&w, &ScoreParams::official());
    // (1 + 2 + 3) * 10 * 2 * 2 points, in thousandths
    assert_eq!(acc.upper_bound(&w), 240_000);
    assert!((total as i128) * 1000 <= acc.upper_bound(&w));
}
