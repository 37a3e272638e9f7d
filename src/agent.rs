//! The anytime search: a pool of elite strategies, one per objective of the
//! score sheet, refined by mutation until the turn's time is spent.
use vstd::prelude::*;
use rand::rngs::ThreadRng;
use crate::clock::{as_millis, elapsed, now};
use crate::evaluation::ScoreParams;
use crate::geometry::V2;
use crate::model::{Milestone, Strategy, World, WorldView, MAP_HEIGHT, MAP_WIDTH};
use crate::mutations::{in_map, is_mutation, mutate_strategy, plan_wf};
use crate::random::{random_below, random_index, random_ratio};
use crate::rollouts::{rollout, rollout_score, run, Rollout, WorldState, MAX_ROLLOUT_TICKS};

verus! {

/// How long a search runs, in milliseconds.
pub const MAX_STRATEGY_GENERATION_MILLISECONDS: u128 = 90;
/// A search never runs more iterations than this, whatever the clock says.
pub const MAX_SEARCH_ITERATIONS: i32 = 1_000_000;
/// How many mutations a candidate gets at most.
pub const MAX_MUTATIONS: u32 = 2;

/// The score of a plan under `p`: its rollout from `w`.
pub open spec fn plan_score(p: ScoreParams, w: WorldView, ms: Seq<Milestone>) -> int {
    rollout_score(p, w.tick, ms.len(), run(ms, 0, w, MAX_ROLLOUT_TICKS as nat).1)
}

/// A plan built from nothing: perhaps one `MoveTo` to a point of the map,
/// then a `KillZombie` for each zombie of `w`, each once, in some order.
pub open spec fn is_from_scratch(ms: Seq<Milestone>, w: WorldView) -> bool {
    exists|m: nat|
        #![trigger ms.subrange(m as int, ms.len() as int)]
        m <= 1 && m <= ms.len() && (m == 1 ==> ms[0] is MoveTo && in_map(ms[0]->target))
            && is_kill_order(ms.subrange(m as int, ms.len() as int), w)
}

/// One `KillZombie` per zombie of `w`, none twice.
pub open spec fn is_kill_order(ks: Seq<Milestone>, w: WorldView) -> bool {
    &&& ks.len() == w.zombies.len()
    &&& forall|k: int| 0 <= k < ks.len() ==> (#[trigger] ks[k]) is KillZombie && w.has_zombie(ks[k]->zombie_id)
    &&& forall|a: int, b: int| 0 <= a < b < ks.len() ==> ks[a] != ks[b]
}

/// One elite: the best strategy found for one objective, its score there,
/// its score under the official objective, and how its rollout ended.
pub struct PoolEntry {
    pub strategy: Strategy,
    pub score: i128,
    pub actual: i128,
    pub ending: WorldState,
}

/// The pool is well formed: entry `i` holds a plan of the mutations' kind
/// with its true scores under objective `i` and under the official one.
pub open spec fn pool_wf(pool: Seq<PoolEntry>, sheet: Seq<ScoreParams>, w: WorldView) -> bool {
    &&& pool.len() == sheet.len()
    &&& sheet.len() > 0
    &&& forall|i: int|
        0 <= i < pool.len() ==> {
            let e = #[trigger] pool[i];
            &&& plan_wf(e.strategy.milestones@)
            &&& e.score == plan_score(sheet[i], w, e.strategy.milestones@)
            &&& e.actual == plan_score(sheet[0], w, e.strategy.milestones@)
        }
}

/// Entry 0 scores, under its own objective, at least what every entry scores
/// under the official objective.
pub open spec fn pool_best_first(pool: Seq<PoolEntry>) -> bool {
    forall|k: int| 0 <= k < pool.len() ==> #[trigger] pool[k].actual <= pool[0].score
}

/// Takes a rollout into the pool: every entry whose objective it scores
/// strictly better on is replaced by it, the others stay. No entry's score
/// ever drops.
pub fn update_pool(pool: &mut Vec<PoolEntry>, candidate: &Rollout)
    requires
        old(pool)@.len() == candidate.scores@.len(),
        old(pool)@.len() > 0,
    ensures
        final(pool)@.len() == old(pool)@.len(),
        forall|i: int|
            0 <= i < final(pool)@.len() ==> {
                let e = #[trigger] final(pool)@[i];
                if candidate.scores@[i] > old(pool)@[i].score {
                    &&& e.score == candidate.scores@[i]
                    &&& e.actual == candidate.scores@[0]
                    &&& e.strategy.milestones@ == candidate.strategy.milestones@
                    &&& e.ending == candidate.ending
                } else {
                    e == old(pool)@[i]
                }
            },
        forall|i: int|
            0 <= i < final(pool)@.len() ==> (#[trigger] final(pool)@[i]).score >= old(pool)@[i].score,
{
    let ghost before = pool@;
    let mut i: usize = 0;
    while i < pool.len()
        invariant
            i <= pool@.len(),
            pool@.len() == before.len(),
            before == old(pool)@,
            before.len() == candidate.scores@.len(),
            before.len() > 0,
            forall|j: int|
                0 <= j < pool@.len() ==> {
                    let e = #[trigger] pool@[j];
                    if j < i && candidate.scores@[j] > before[j].score {
                        &&& e.score == candidate.scores@[j]
                        &&& e.actual == candidate.scores@[0]
                        &&& e.strategy.milestones@ == candidate.strategy.milestones@
                        &&& e.ending == candidate.ending
                    } else {
                        e == before[j]
                    }
                },
        decreases pool@.len() - i,
    {
        if candidate.scores[i] > pool[i].score {
            let entry = PoolEntry {
                strategy: candidate.strategy.seed(candidate.strategy.id),
                score: candidate.scores[i],
                actual: candidate.scores[0],
                ending: candidate.ending,
            };
            pool.set(i, entry);
        }
        i += 1;
    }
}

/// A plan from nothing: with chance 1/2 a `MoveTo` to a random point of the
/// map, then a `KillZombie` for every zombie in random order.
fn generate_strategy_from_scratch(id: i32, world: &World, rng: &mut ThreadRng) -> (r: Strategy)
    requires
        world@.wf(),
    ensures
        r.id == id,
        plan_wf(r.milestones@),
        is_from_scratch(r.milestones@, world@),
{
    let mut strategy = Strategy::new(id);
    if random_ratio(rng, 1, 2) {
        let x = random_below(rng, MAP_WIDTH as u64) as i64;
        let y = random_below(rng, MAP_HEIGHT as u64) as i64;
        strategy.milestones.push(Milestone::MoveTo { target: V2 { x, y } });
    }
    let m = strategy.milestones.len();
    let mut remaining_zombie_ids: Vec<i32> = Vec::new();
    let mut i: usize = 0;
    while i < world.zombies.len()
        invariant
            i <= world@.zombies.len(),
            remaining_zombie_ids@.len() == i,
            forall|k: int| 0 <= k < i ==> #[trigger] remaining_zombie_ids@[k] == world@.zombies[k].id,
        decreases world@.zombies.len() - i,
    {
        remaining_zombie_ids.push(world.zombies[i].id);
        i += 1;
    }
    let ghost w = world@;
    while remaining_zombie_ids.len() > 0
        invariant
            w == world@,
            w.wf(),
            m <= 1,
            strategy.id == id,
            strategy.milestones@.len() == m + w.zombies.len() - remaining_zombie_ids@.len(),
            remaining_zombie_ids@.len() <= w.zombies.len(),
            m == 1 ==> strategy.milestones@[0] is MoveTo && in_map(strategy.milestones@[0]->target),
            forall|k: int| 0 <= k < remaining_zombie_ids@.len() ==> w.has_zombie(#[trigger] remaining_zombie_ids@[k]),
            forall|a: int, b: int| 0 <= a < b < remaining_zombie_ids@.len() ==> remaining_zombie_ids@[a] != remaining_zombie_ids@[b],
            forall|k: int| m <= k < strategy.milestones@.len() ==> (#[trigger] strategy.milestones@[k]) is KillZombie
                && w.has_zombie(strategy.milestones@[k]->zombie_id)
                && forall|q: int| 0 <= q < remaining_zombie_ids@.len() ==> remaining_zombie_ids@[q] != strategy.milestones@[k]->zombie_id,
            forall|a: int, b: int| m <= a < b < strategy.milestones@.len() ==> strategy.milestones@[a] != strategy.milestones@[b],
        decreases remaining_zombie_ids@.len(),
    {
        let ghost before = remaining_zombie_ids@;
        let pick = random_index(rng, remaining_zombie_ids.len());
        let zombie_id = remaining_zombie_ids.remove(pick);
        proof {
            assert forall|q: int| 0 <= q < remaining_zombie_ids@.len() implies remaining_zombie_ids@[q] != zombie_id by {
                if q < pick {
                    assert(remaining_zombie_ids@[q] == before[q]);
                } else {
                    assert(remaining_zombie_ids@[q] == before[q + 1]);
                }
            }
            assert forall|k: int| 0 <= k < remaining_zombie_ids@.len() implies w.has_zombie(#[trigger] remaining_zombie_ids@[k]) by {
                if k < pick {
                    assert(remaining_zombie_ids@[k] == before[k]);
                } else {
                    assert(remaining_zombie_ids@[k] == before[k + 1]);
                }
            }
            assert forall|a: int, b: int| 0 <= a < b < remaining_zombie_ids@.len() implies remaining_zombie_ids@[a] != remaining_zombie_ids@[b] by {
                let a0 = if a < pick { a } else { a + 1 };
                let b0 = if b < pick { b } else { b + 1 };
                assert(remaining_zombie_ids@[a] == before[a0]);
                assert(remaining_zombie_ids@[b] == before[b0]);
            }
        }
        let ghost ms_before = strategy.milestones@;
        strategy.milestones.push(Milestone::KillZombie { zombie_id });
        proof {
            assert forall|k: int| m <= k < strategy.milestones@.len() implies (#[trigger] strategy.milestones@[k]) is KillZombie
                && w.has_zombie(strategy.milestones@[k]->zombie_id)
                && forall|q: int| 0 <= q < remaining_zombie_ids@.len() ==> remaining_zombie_ids@[q] != strategy.milestones@[k]->zombie_id by {
                if k < ms_before.len() {
                    assert(strategy.milestones@[k] == ms_before[k]);
                    assert forall|q: int| 0 <= q < remaining_zombie_ids@.len() implies remaining_zombie_ids@[q] != strategy.milestones@[k]->zombie_id by {
                        if q < pick {
                            assert(remaining_zombie_ids@[q] == before[q]);
                        } else {
                            assert(remaining_zombie_ids@[q] == before[q + 1]);
                        }
                    }
                }
            }
            assert forall|a: int, b: int| m <= a < b < strategy.milestones@.len() implies strategy.milestones@[a] != strategy.milestones@[b] by {
                if b == ms_before.len() {
                    assert(strategy.milestones@[a] == ms_before[a]);
                    assert(ms_before[a]->zombie_id != before[pick as int]);
                }
            }
        }
    }
    proof {
        let ms = strategy.milestones@;
        let ks = ms.subrange(m as int, ms.len() as int);
        assert(is_kill_order(ks, w)) by {
            assert forall|k: int| 0 <= k < ks.len() implies (#[trigger] ks[k]) is KillZombie && w.has_zombie(ks[k]->zombie_id) by {
                assert(ks[k] == ms[m + k]);
            }
            assert forall|a: int, b: int| 0 <= a < b < ks.len() implies ks[a] != ks[b] by {
                assert(ks[a] == ms[m + a] && ks[b] == ms[m + b]);
            }
        }
        assert(is_from_scratch(ms, w)) by {
            let mm = m as nat;
            assert(mm <= 1 && mm <= ms.len());
            assert(is_kill_order(ms.subrange(mm as int, ms.len() as int), w));
        }
        assert forall|k: int| 0 <= k < ms.len() implies crate::milestones::milestone_in_range(#[trigger] ms[k]) by {
        }
        assert(ms.len() <= 101);
    }
    strategy
}

/// A candidate from `parent`: with chance 9/10 the parent after one or two
/// mutations (the second with chance 1/10); from nothing when that is not
/// drawn or no mutation applied.
fn generate_strategy(id: i32, parent: &Strategy, world: &World, rng: &mut ThreadRng) -> (r: Strategy)
    requires
        world@.wf(),
        plan_wf(parent.milestones@),
    ensures
        r.id == id,
        plan_wf(r.milestones@),
        is_from_scratch(r.milestones@, world@) || is_mutation(parent.milestones@, r.milestones@, world@)
            || exists|mid: Seq<Milestone>| is_mutation(parent.milestones@, mid, world@) && is_mutation(mid, r.milestones@, world@),
{
    if random_ratio(rng, 9, 10) {
        let mut candidate = parent.seed(id);
        let first = mutate_strategy(&mut candidate, world, rng);
        let ghost mid = candidate.milestones@;
        let mut second = false;
        if random_ratio(rng, 1, 10) {
            second = mutate_strategy(&mut candidate, world, rng);
        }
        if first || second {
            proof {
                if first && second {
                    assert(is_mutation(parent.milestones@, mid, world@));
                } else if second {
                    assert(mid == parent.milestones@);
                }
            }
            return candidate;
        }
    }
    generate_strategy_from_scratch(id, world, rng)
}

/// The strategies of the pool, in the order of the score sheet.
fn export(pool: &Vec<PoolEntry>) -> (r: Vec<Strategy>)
    ensures
        r@.len() == pool@.len(),
        forall|i: int| 0 <= i < r@.len() ==> (#[trigger] r@[i]).milestones@ == pool@[i].strategy.milestones@,
{
    let mut r: Vec<Strategy> = Vec::new();
    let mut i: usize = 0;
    while i < pool.len()
        invariant
            i <= pool@.len(),
            r@.len() == i,
            forall|j: int| 0 <= j < i ==> (#[trigger] r@[j]).milestones@ == pool@[j].strategy.milestones@,
        decreases pool@.len() - i,
    {
        r.push(pool[i].strategy.seed(pool[i].strategy.id));
        i += 1;
    }
    r
}

/// Searches for the best plan under each objective of `score_sheet` for
/// about `MAX_STRATEGY_GENERATION_MILLISECONDS`, starting from the empty
/// plan and the plans of the previous turn, and returns one plan per
/// objective. Entry 0, under the official objective, is the one to play.
pub fn choose_strategies(
    world: &World,
    score_sheet: &Vec<ScoreParams>,
    previous_strategies: Vec<Strategy>,
    rng: &mut ThreadRng,
) -> (r: Vec<Strategy>)
    requires
        world@.wf(),
        world.tick <= i32::MAX - MAX_ROLLOUT_TICKS,
        score_sheet@.len() > 0,
        forall|i: int| 0 <= i < score_sheet@.len() ==> (#[trigger] score_sheet@[i]).wf(),
        forall|j: int| 0 <= j < previous_strategies@.len() ==> plan_wf(
            (#[trigger] previous_strategies@[j]).milestones@,
        ),
    ensures
        r@.len() == score_sheet@.len(),
        forall|i: int| 0 <= i < r@.len() ==> plan_wf((#[trigger] r@[i]).milestones@),
        forall|i: int|
            0 <= i < r@.len() ==> #[trigger] plan_score(score_sheet@[i], world@, r@[i].milestones@)
                >= plan_score(score_sheet@[i], world@, Seq::empty()),
        forall|i: int, j: int|
            0 <= i < r@.len() && 0 <= j < previous_strategies@.len() ==> #[trigger] plan_score(
                score_sheet@[i],
                world@,
                r@[i].milestones@,
            ) >= plan_score(score_sheet@[i], world@, #[trigger] previous_strategies@[j].milestones@),
        forall|i: int|
            0 <= i < r@.len() ==> plan_score(score_sheet@[0], world@, r@[0].milestones@)
                >= #[trigger] plan_score(score_sheet@[0], world@, r@[i].milestones@),
{
    let start = now();
    let ghost w = world@;
    let ghost sheet = score_sheet@;
    let ghost previous = previous_strategies@;
    let mut strategy_id: i32 = 0;
    let empty = rollout(Strategy::new(strategy_id), world, score_sheet);
    assert(empty.strategy.milestones@ =~= Seq::<Milestone>::empty());
    let mut pool: Vec<PoolEntry> = Vec::new();
    let mut i: usize = 0;
    while i < score_sheet.len()
        invariant
            i <= sheet.len(),
            sheet == score_sheet@,
            w == world@,
            sheet.len() > 0,
            empty.scores@.len() == sheet.len(),
            empty.strategy.milestones@.len() == 0,
            forall|k: int| 0 <= k < empty.scores@.len() ==> #[trigger] empty.scores@[k] == rollout_score(
                sheet[k],
                w.tick,
                0,
                run(Seq::empty(), 0, w, MAX_ROLLOUT_TICKS as nat).1,
            ),
            pool@.len() == i,
            forall|k: int|
                0 <= k < i ==> {
                    let e = #[trigger] pool@[k];
                    &&& e.strategy.milestones@.len() == 0
                    &&& e.score == empty.scores@[k]
                    &&& e.actual == empty.scores@[0]
                },
        decreases sheet.len() - i,
    {
        pool.push(
            PoolEntry {
                strategy: empty.strategy.seed(empty.strategy.id),
                score: empty.scores[i],
                actual: empty.scores[0],
                ending: empty.ending,
            },
        );
        i += 1;
    }
    proof {
        assert(empty.strategy.milestones@ =~= Seq::<Milestone>::empty());
        assert forall|k: int| 0 <= k < pool@.len() implies (#[trigger] pool@[k]).strategy.milestones@
            == Seq::<Milestone>::empty() by {
            assert(pool@[k].strategy.milestones@ =~= Seq::<Milestone>::empty());
        }
    }
    let mut p: usize = 0;
    while p < previous_strategies.len()
        invariant
            p <= previous.len(),
            previous == previous_strategies@,
            0 <= strategy_id,
            pool_best_first(pool@),
            sheet == score_sheet@,
            w == world@,
            w.wf(),
            world.tick <= i32::MAX - MAX_ROLLOUT_TICKS,
            forall|k: int| 0 <= k < sheet.len() ==> (#[trigger] sheet[k]).wf(),
            forall|j: int| 0 <= j < previous.len() ==> plan_wf((#[trigger] previous[j]).milestones@),
            pool_wf(pool@, sheet, w),
            forall|k: int|
                0 <= k < pool@.len() ==> #[trigger] pool@[k].score >= plan_score(
                    sheet[k],
                    w,
                    Seq::empty(),
                ),
            forall|k: int, j: int|
                0 <= k < pool@.len() && 0 <= j < p ==> #[trigger] pool@[k].score >= plan_score(
                    sheet[k],
                    w,
                    #[trigger] previous[j].milestones@,
                ),
        decreases previous.len() - p,
    {
        if strategy_id < i32::MAX {
            strategy_id = strategy_id + 1;
        }
        let candidate = previous_strategies[p].seed(strategy_id);
        let result = rollout(candidate, world, score_sheet);
        let ghost before = pool@;
        update_pool(&mut pool, &result);
        proof {
            assert(pool_best_first(pool@)) by {
                assert forall|k: int| 0 <= k < pool@.len() implies #[trigger] pool@[k].actual
                    <= pool@[0].score by {
                    assert(before[k].actual <= before[0].score);
                }
            }
            assert forall|k: int| 0 <= k < pool@.len() implies #[trigger] pool@[k].score >= plan_score(
                sheet[k],
                w,
                previous[p as int].milestones@,
            ) by {
                assert(result.scores@[k] == plan_score(sheet[k], w, previous[p as int].milestones@));
            }
            assert forall|k: int, j: int| 0 <= k < pool@.len() && 0 <= j < p + 1 implies #[trigger] pool@[k].score >= plan_score(
                sheet[k],
                w,
                #[trigger] previous[j].milestones@,
            ) by {
                if j < p {
                    assert(before[k].score >= plan_score(sheet[k], w, previous[j].milestones@));
                }
            }
        }
        p += 1;
    }
    let mut iterations: i32 = 0;
    while iterations < MAX_SEARCH_ITERATIONS && as_millis(&elapsed(&start))
        < MAX_STRATEGY_GENERATION_MILLISECONDS
        invariant
            0 <= iterations <= MAX_SEARCH_ITERATIONS,
            0 <= strategy_id,
            pool_best_first(pool@),
            sheet == score_sheet@,
            previous == previous_strategies@,
            w == world@,
            w.wf(),
            world.tick <= i32::MAX - MAX_ROLLOUT_TICKS,
            forall|k: int| 0 <= k < sheet.len() ==> (#[trigger] sheet[k]).wf(),
            pool_wf(pool@, sheet, w),
            forall|k: int|
                0 <= k < pool@.len() ==> #[trigger] pool@[k].score >= plan_score(
                    sheet[k],
                    w,
                    Seq::empty(),
                ),
            forall|k: int, j: int|
                0 <= k < pool@.len() && 0 <= j < previous.len() ==> #[trigger] pool@[k].score
                    >= plan_score(sheet[k], w, #[trigger] previous[j].milestones@),
        decreases MAX_SEARCH_ITERATIONS - iterations,
    {
        iterations = iterations + 1;
        if strategy_id < i32::MAX {
            strategy_id = strategy_id + 1;
        }
        let parent_index = random_index(rng, pool.len());
        let candidate = generate_strategy(strategy_id, &pool[parent_index].strategy, world, rng);
        let result = rollout(candidate, world, score_sheet);
        let ghost before = pool@;
        update_pool(&mut pool, &result);
        proof {
            assert(pool_best_first(pool@)) by {
                assert forall|k: int| 0 <= k < pool@.len() implies #[trigger] pool@[k].actual
                    <= pool@[0].score by {
                    assert(before[k].actual <= before[0].score);
                }
            }
            assert forall|k: int, j: int| 0 <= k < pool@.len() && 0 <= j < previous.len() implies #[trigger] pool@[k].score >= plan_score(
                sheet[k],
                w,
                #[trigger] previous[j].milestones@,
            ) by {
                assert(before[k].score >= plan_score(sheet[k], w, previous[j].milestones@));
            }
        }
    }
    proof {
        assert forall|k: int| 0 <= k < pool@.len() implies plan_score(sheet[0], w, pool@[0].strategy.milestones@)
            >= #[trigger] plan_score(sheet[0], w, pool@[k].strategy.milestones@) by {
            assert(pool@[k].actual <= pool@[0].score);
        }
    }
    export(&pool)
}

} // verus!
