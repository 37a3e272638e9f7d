//! Runs a strategy forward from a world and scores what happens.
use vstd::prelude::*;
use crate::evaluation::{
    ScoreAccumulator, ScoreParams, events_value, event_in_bounds, lemma_events_value_append,
    lemma_events_value_bound,
    POINTS_PER_MILESTONE,
};
use crate::milestones::{milestone_action, milestone_in_range};
use crate::model::{Action, Event, Milestone, Strategy, World, WorldView};
use crate::simulator;
use crate::simulator::{
    next_events, next_view, moved_zombies, moved_ash, zombies_after_kills, humans_after_tick,
    kill_events, kill_base, human_events, ending_events, lemma_kill_events_shape,
    lemma_kill_events_len, lemma_human_events_shape, lemma_surviving_zombies,
    lemma_surviving_humans, lemma_terminality, lemma_population_monotone, lemma_next_wf,
};

verus! {

/// How many ticks a rollout simulates at most.
pub const MAX_ROLLOUT_TICKS: i32 = 50;
/// The most events that one tick reports: every zombie and human dies, and
/// the game ends.
pub const MAX_TICK_EVENTS: usize = 201;

/// Every `MoveTo` of the plan names a point on the grid.
pub open spec fn milestones_in_range(ms: Seq<Milestone>) -> bool {
    forall|i: int| 0 <= i < ms.len() ==> milestone_in_range(#[trigger] ms[i])
}

/// A plan that a rollout takes: every point on the grid.
pub open spec fn strategy_wf(s: &Strategy) -> bool {
    milestones_in_range(s.milestones@)
}

pub open spec fn has_terminal(events: Seq<Event>) -> bool {
    exists|i: int| 0 <= i < events.len() && events[i].is_terminal()
}

/// From cursor `i`, the first milestone that still asks for an action gives
/// it, and the cursor stops there; past the end the player stays put.
pub open spec fn emit(ms: Seq<Milestone>, i: nat, w: WorldView) -> (nat, Action)
    decreases ms.len() - i,
{
    if i >= ms.len() {
        (i, Action { target: w.ash })
    } else {
        match milestone_action(ms[i as int], w) {
            Some(a) => (i, a),
            None => emit(ms, i + 1, w),
        }
    }
}

/// Runs the plan `ms` from cursor `cursor` for at most `ticks` ticks,
/// stopping after the tick that reports a terminal event: the world at the
/// end and the events in order.
pub open spec fn run(ms: Seq<Milestone>, cursor: nat, w: WorldView, ticks: nat) -> (
    WorldView,
    Seq<Event>,
)
    decreases ticks,
{
    if ticks == 0 {
        (w, seq![])
    } else {
        let (c, a) = emit(ms, cursor, w);
        let ev = next_events(w, a);
        if has_terminal(ev) {
            (next_view(w, a), ev)
        } else {
            let (end, rest) = run(ms, c, next_view(w, a), (ticks - 1) as nat);
            (end, ev + rest)
        }
    }
}

/// How a rollout ended.
#[derive(Clone, Copy, Debug, PartialEq, Eq, Structural)]
pub struct WorldState {
    pub tick: i32,
    pub num_zombies: usize,
    pub num_humans: usize,
}

impl WorldState {
    /// The state of no world yet.
    pub fn new() -> (r: WorldState)
        ensures
            r.tick == -1,
            r.num_zombies == 0,
            r.num_humans == 0,
    {
        WorldState { tick: -1, num_zombies: 0, num_humans: 0 }
    }

    pub fn from(world: &World) -> (r: WorldState)
        ensures
            r.tick == world.tick,
            r.num_zombies == world@.zombies.len(),
            r.num_humans == world@.humans.len(),
    {
        WorldState {
            tick: world.tick,
            num_zombies: world.zombies.len(),
            num_humans: world.humans.len(),
        }
    }
}

/// A strategy, the events of its rollout, how it ended, and its score under
/// each objective of the score sheet.
pub struct Rollout {
    pub strategy: Strategy,
    pub events: Vec<Event>,
    pub ending: WorldState,
    pub scores: Vec<i128>,
}

/// Walks a strategy's milestones with a cursor that moves past each one
/// that is done.
pub struct ActionEmitter<'a> {
    pub strategy: &'a Strategy,
    pub current_index: usize,
}

impl<'a> ActionEmitter<'a> {
    pub fn new(strategy: &'a Strategy) -> (r: ActionEmitter<'a>)
        ensures
            r.strategy == strategy,
            r.current_index == 0,
    {
        ActionEmitter { strategy, current_index: 0 }
    }

    /// The action of the first milestone from the cursor that is not done;
    /// the player's own position once all are.
    pub fn next(&mut self, world: &World) -> (r: Action)
        requires
            world@.wf(),
            milestones_in_range(old(self).strategy.milestones@),
            old(self).current_index <= old(self).strategy.milestones@.len(),
        ensures
            final(self).strategy == old(self).strategy,
            (final(self).current_index as nat, r) == emit(
                old(self).strategy.milestones@,
                old(self).current_index as nat,
                world@,
            ),
            final(self).current_index <= final(self).strategy.milestones@.len(),
            r.target.in_range(),
    {
        let ghost ms = self.strategy.milestones@;
        let ghost start = self.current_index as nat;
        while self.current_index < self.strategy.milestones.len()
            invariant
                world@.wf(),
                self.strategy == old(self).strategy,
                ms == self.strategy.milestones@,
                ms == old(self).strategy.milestones@,
                start == old(self).current_index,
                milestones_in_range(ms),
                self.current_index <= ms.len(),
                emit(ms, start, world@) == emit(ms, self.current_index as nat, world@),
            decreases ms.len() - self.current_index,
        {
            let milestone = &self.strategy.milestones[self.current_index];
            match milestone.to_action(world) {
                Some(action) => {
                    assert(emit(ms, self.current_index as nat, world@) == (
                    self.current_index as nat, action));
                    return action;
                },
                None => {
                    self.current_index = self.current_index + 1;
                },
            }
        }
        Action { target: world.ash.pos }
    }
}

/// The first action of a strategy in `world`.
pub fn strategy_to_action(strategy: &Strategy, world: &World) -> (r: Action)
    requires
        world@.wf(),
        milestones_in_range(strategy.milestones@),
    ensures
        r == emit(strategy.milestones@, 0, world@).1,
        r.target.in_range(),
{
    let mut action_emitter = ActionEmitter::new(strategy);
    action_emitter.next(world)
}

/// The events of one tick are few and within the evaluator's bounds.
pub proof fn lemma_tick_events_bounds(w: WorldView, a: Action)
    requires
        w.wf(),
        w.tick < i32::MAX,
    ensures
        next_events(w, a).len() <= MAX_TICK_EVENTS,
        forall|i: int| 0 <= i < next_events(w, a).len() ==> event_in_bounds(#[trigger] next_events(w, a)[i]),
{
    if !w.is_over() {
        let tick = (w.tick + 1) as i32;
        let moved = moved_zombies(w.zombies);
        let p = moved_ash(w, a);
        let zs = zombies_after_kills(w, a);
        let hs = humans_after_tick(w, a);
        let base = kill_base(w.humans.len());
        assert(base <= 100000) by (nonlinear_arith)
            requires
                base == 10 * w.humans.len() * w.humans.len(),
                w.humans.len() <= 100,
        ;
        lemma_kill_events_shape(moved, p, tick, base);
        lemma_kill_events_len(moved, p, tick, base);
        lemma_human_events_shape(w.humans, zs, tick);
        lemma_surviving_zombies(moved, p);
        lemma_surviving_humans(w.humans, zs);
        let kills = kill_events(moved, p, tick, base);
        let caught = if zs.len() > 0 {
            human_events(w.humans, zs, tick)
        } else {
            seq![]
        };
        let ending = ending_events(tick, hs, zs);
        let ev = next_events(w, a);
        assert(ev == kills + caught + ending);
        assert forall|i: int| 0 <= i < ev.len() implies event_in_bounds(#[trigger] ev[i]) by {
            if i < kills.len() {
                assert(ev[i] == kills[i]);
                let k = (i + 1) as nat;
                crate::simulator::lemma_kill_multiplier_bound(k);
                assert(crate::simulator::kill_multiplier(k) * base <= 573147844013817084101 * 100000)
                    by (nonlinear_arith)
                    requires
                        crate::simulator::kill_multiplier(k) <= 573147844013817084101,
                        base <= 100000,
                ;
            } else if i < kills.len() + caught.len() {
                assert(ev[i] == caught[i - kills.len()]);
            } else {
                assert(ev[i] == ending[i - kills.len() - caught.len()]);
            }
        }
    }
}

/// Once a tick reports a terminal event the run stops: a run reports a
/// terminal event last, if at all.
pub proof fn lemma_run_terminality(ms: Seq<Milestone>, cursor: nat, w: WorldView, ticks: nat)
    requires
        w.wf(),
        milestones_in_range(ms),
    ensures
        forall|i: int|
            0 <= i < run(ms, cursor, w, ticks).1.len() - 1 ==> !(#[trigger] run(
                ms,
                cursor,
                w,
                ticks,
            ).1[i]).is_terminal(),
    decreases ticks,
{
    if ticks > 0 {
        let (c, a) = emit(ms, cursor, w);
        let ev = next_events(w, a);
        lemma_terminality(w, a, a);
        if !has_terminal(ev) {
            lemma_emit_in_range(ms, cursor, w);
            lemma_next_wf(w, a);
            lemma_run_terminality(ms, c, next_view(w, a), (ticks - 1) as nat);
            let rest = run(ms, c, next_view(w, a), (ticks - 1) as nat).1;
            let all = run(ms, cursor, w, ticks).1;
            assert(all == ev + rest);
            assert forall|i: int| 0 <= i < all.len() - 1 implies !(#[trigger] all[i]).is_terminal() by {
                if i < ev.len() {
                    assert(all[i] == ev[i]);
                } else {
                    assert(all[i] == rest[i - ev.len()]);
                }
            }
        }
    }
}

/// Population never grows over a run.
pub proof fn lemma_run_population(ms: Seq<Milestone>, cursor: nat, w: WorldView, ticks: nat)
    ensures
        run(ms, cursor, w, ticks).0.zombies.len() <= w.zombies.len(),
        run(ms, cursor, w, ticks).0.humans.len() <= w.humans.len(),
    decreases ticks,
{
    if ticks > 0 {
        let (c, a) = emit(ms, cursor, w);
        lemma_population_monotone(w, a);
        lemma_run_population(ms, c, next_view(w, a), (ticks - 1) as nat);
    }
}

/// The action that a plan of points on the grid emits is on the grid.
pub proof fn lemma_emit_in_range(ms: Seq<Milestone>, i: nat, w: WorldView)
    requires
        w.wf(),
        milestones_in_range(ms),
    ensures
        emit(ms, i, w).1.target.in_range(),
        i <= ms.len() ==> i <= emit(ms, i, w).0 <= ms.len(),
    decreases ms.len() - i,
{
    if i < ms.len() {
        lemma_emit_in_range(ms, i + 1, w);
        let m = ms[i as int];
        assert(milestone_in_range(m));
        match m {
            Milestone::KillZombie { zombie_id } => {
                if w.has_zombie(zombie_id) {
                    let j = choose|j: int| 0 <= j < w.zombies.len() && w.zombies[j].id == zombie_id;
                    assert(w.zombies[j].next.in_range());
                }
            },
            Milestone::ProtectHuman { human_id } => {
                if w.has_human(human_id) {
                    let j = choose|j: int| 0 <= j < w.humans.len() && w.humans[j].id == human_id;
                    assert(w.humans[j].pos.in_range());
                }
            },
            Milestone::MoveTo { .. } => {},
        }
    }
}

/// The score of a rollout under `p`: the plan's length charged once, then
/// the value of every event.
pub open spec fn rollout_score(
    p: ScoreParams,
    initial_tick: int,
    num_milestones: nat,
    events: Seq<Event>,
) -> int {
    -POINTS_PER_MILESTONE * num_milestones + events_value(p, initial_tick, events)
}

fn any_terminal(events: &Vec<Event>) -> (r: bool)
    ensures
        r == has_terminal(events@),
{
    let mut i: usize = 0;
    while i < events.len()
        invariant
            i <= events.len(),
            forall|j: int| 0 <= j < i ==> !events@[j].is_terminal(),
        decreases events.len() - i,
    {
        if events[i].is_ending() {
            return true;
        }
        i += 1;
    }
    false
}

/// Runs `strategy` on a copy of `initial` for at most `MAX_ROLLOUT_TICKS`
/// ticks, stopping after a terminal event, and scores the events under
/// each objective of the sheet.
pub fn rollout(strategy: Strategy, initial: &World, score_params: &Vec<ScoreParams>) -> (r: Rollout)
    requires
        initial@.wf(),
        initial.tick <= i32::MAX - MAX_ROLLOUT_TICKS,
        strategy_wf(&strategy),
        forall|i: int| 0 <= i < score_params@.len() ==> (#[trigger] score_params@[i]).wf(),
    ensures
        r.strategy == strategy,
        r.events@ == run(strategy.milestones@, 0, initial@, MAX_ROLLOUT_TICKS as nat).1,
        r.ending.tick == run(strategy.milestones@, 0, initial@, MAX_ROLLOUT_TICKS as nat).0.tick,
        r.ending.num_zombies == run(
            strategy.milestones@,
            0,
            initial@,
            MAX_ROLLOUT_TICKS as nat,
        ).0.zombies.len(),
        r.ending.num_humans == run(
            strategy.milestones@,
            0,
            initial@,
            MAX_ROLLOUT_TICKS as nat,
        ).0.humans.len(),
        r.scores@.len() == score_params@.len(),
        forall|i: int|
            0 <= i < r.scores@.len() ==> #[trigger] r.scores@[i] == rollout_score(
                score_params@[i],
                initial.tick as int,
                strategy.milestones@.len(),
                r.events@,
            ),
        forall|i: int| 0 <= i < r.events@.len() - 1 ==> !(#[trigger] r.events@[i]).is_terminal(),
{
    let ghost ms = strategy.milestones@;
    let ghost t0 = initial.tick as int;
    let ghost len = strategy.milestones@.len();
    let ghost total_run = run(ms, 0, initial@, MAX_ROLLOUT_TICKS as nat);
    let num_milestones = strategy.milestones.len();
    assert(len == num_milestones);
    let mut world = initial.duplicate();
    let mut events: Vec<Event> = Vec::new();
    let mut accumulators: Vec<ScoreAccumulator> = Vec::new();
    let mut k: usize = 0;
    while k < score_params.len()
        invariant
            k <= score_params@.len(),
            world@ == initial@,
            initial@.wf(),
            strategy.milestones@.len() <= usize::MAX,
            forall|i: int| 0 <= i < score_params@.len() ==> (#[trigger] score_params@[i]).wf(),
            accumulators@.len() == k,
            t0 == initial.tick as int,
            len == strategy.milestones@.len(),
            forall|j: int|
                0 <= j < k ==> {
                    let a = #[trigger] accumulators@[j];
                    &&& a.params == score_params@[j]
                    &&& a.initial_tick == t0
                    &&& a.total_score == -POINTS_PER_MILESTONE * len
                },
        decreases score_params@.len() - k,
    {
        let mut acc = ScoreAccumulator::new(&world, &score_params[k]);
        acc.evaluate_strategy(&strategy);
        accumulators.push(acc);
        k += 1;
    }
    let mut emitter = ActionEmitter::new(&strategy);
    let mut done = false;
    let mut t: i32 = 0;
    while t < MAX_ROLLOUT_TICKS && !done
        invariant
            0 <= t <= MAX_ROLLOUT_TICKS,
            world@.wf(),
            world.tick == t0 + t,
            0 <= t0 <= i32::MAX - MAX_ROLLOUT_TICKS,
            ms == strategy.milestones@,
            len == ms.len(),
            len <= usize::MAX,
            milestones_in_range(ms),
            emitter.strategy == &strategy,
            emitter.current_index <= ms.len(),
            !done ==> total_run == (
                run(ms, emitter.current_index as nat, world@, (MAX_ROLLOUT_TICKS - t) as nat).0,
                events@ + run(
                    ms,
                    emitter.current_index as nat,
                    world@,
                    (MAX_ROLLOUT_TICKS - t) as nat,
                ).1,
            ),
            done ==> total_run == (world@, events@),
            events@.len() <= t * MAX_TICK_EVENTS,
            forall|i: int| 0 <= i < events@.len() ==> event_in_bounds(#[trigger] events@[i]),
            forall|i: int| 0 <= i < score_params@.len() ==> (#[trigger] score_params@[i]).wf(),
            accumulators@.len() == score_params@.len(),
            forall|j: int|
                0 <= j < accumulators@.len() ==> {
                    let a = #[trigger] accumulators@[j];
                    &&& a.params == score_params@[j]
                    &&& a.initial_tick == t0
                    &&& a.total_score == rollout_score(score_params@[j], t0, len, events@)
                },
        decreases MAX_ROLLOUT_TICKS - t,
    {
        let ghost w_before = world@;
        let ghost c_before = emitter.current_index as nat;
        let ghost events_before = events@;
        let action = emitter.next(&world);
        proof {
            lemma_tick_events_bounds(world@, action);
            lemma_next_wf(world@, action);
        }
        let mut tick_events = simulator::next(&mut world, &action);
        let ghost ev = tick_events@;
        let mut i: usize = 0;
        while i < accumulators.len()
            invariant
                i <= accumulators@.len(),
                accumulators@.len() == score_params@.len(),
                tick_events@ == ev,
                ev.len() <= MAX_TICK_EVENTS,
                events_before.len() <= t * MAX_TICK_EVENTS,
                0 <= t < MAX_ROLLOUT_TICKS,
                len <= usize::MAX,
                t0 >= 0,
                forall|j: int| 0 <= j < ev.len() ==> event_in_bounds(#[trigger] ev[j]),
                forall|j: int| 0 <= j < events_before.len() ==> event_in_bounds(#[trigger] events_before[j]),
                forall|j: int| 0 <= j < score_params@.len() ==> (#[trigger] score_params@[j]).wf(),
                forall|j: int|
                    0 <= j < accumulators@.len() ==> {
                        let a = #[trigger] accumulators@[j];
                        &&& a.params == score_params@[j]
                        &&& a.initial_tick == t0
                        &&& a.total_score == rollout_score(
                            score_params@[j],
                            t0,
                            len,
                            if j < i {
                                events_before + ev
                            } else {
                                events_before
                            },
                        )
                    },
            decreases accumulators@.len() - i,
        {
            let mut acc = accumulators[i];
            proof {
                lemma_events_value_bound(acc.params, t0, events_before);
                lemma_events_value_append(acc.params, t0, events_before, ev);
                assert(events_before.len() + ev.len() <= 10050) by (nonlinear_arith)
                    requires
                        events_before.len() <= t * 201,
                        ev.len() <= 201,
                        t < 50,
                ;
            }
            acc.accumulate(&tick_events);
            accumulators.set(i, acc);
            i += 1;
        }
        let finished = any_terminal(&tick_events);
        events.append(&mut tick_events);
        proof {
            let rest_ticks = (MAX_ROLLOUT_TICKS - t) as nat;
            assert(emit(ms, c_before, w_before) == (emitter.current_index as nat, action));
            assert(events@ == events_before + ev);
            assert forall|j: int| 0 <= j < events@.len() implies event_in_bounds(#[trigger] events@[j]) by {
                if j < events_before.len() {
                    assert(events@[j] == events_before[j]);
                } else {
                    assert(events@[j] == ev[j - events_before.len()]);
                }
            }
            assert(events@.len() <= (t + 1) * MAX_TICK_EVENTS) by (nonlinear_arith)
                requires
                    events@.len() == events_before.len() + ev.len(),
                    events_before.len() <= t * 201,
                    ev.len() <= 201,
            ;
            if !finished {
                let rest = run(ms, emitter.current_index as nat, world@, (rest_ticks - 1) as nat);
                assert(run(ms, c_before, w_before, rest_ticks) == (rest.0, ev + rest.1));
                assert(events_before + (ev + rest.1) =~= events@ + rest.1);
            }
        }
        if finished {
            done = true;
        }
        t += 1;
    }
    proof {
        if !done {
            assert(t == MAX_ROLLOUT_TICKS);
            let end = run(ms, emitter.current_index as nat, world@, 0);
            assert(end == (world@, Seq::<Event>::empty()));
            assert(events@ + Seq::<Event>::empty() =~= events@);
            assert(total_run.1 == events@);
            lemma_run_terminality(ms, 0, initial@, MAX_ROLLOUT_TICKS as nat);
        } else {
            lemma_run_terminality(ms, 0, initial@, MAX_ROLLOUT_TICKS as nat);
        }
        assert(total_run.1 == events@);
        assert forall|i: int| 0 <= i < events@.len() - 1 implies !(#[trigger] events@[i]).is_terminal() by {
            assert(events@[i] == total_run.1[i]);
        }
    }
    let mut scores: Vec<i128> = Vec::new();
    let mut j: usize = 0;
    while j < accumulators.len()
        invariant
            j <= accumulators@.len(),
            scores@.len() == j,
            forall|i: int| 0 <= i < j ==> #[trigger] scores@[i] == accumulators@[i].total_score,
        decreases accumulators@.len() - j,
    {
        scores.push(accumulators[j].total_score);
        j += 1;
    }
    let ending = WorldState::from(&world);
    Rollout { strategy, events, ending, scores }
}

} // verus!
