//! Scoring of event traces, in fixed point.
//!
//! Scores are counted in thousandths of a game point, multipliers in
//! thousandths, and the discount rate in units of `DISCOUNT_ONE`.
use vstd::prelude::*;
use rand::rngs::ThreadRng;
use crate::model::{Event, Strategy, World};
use crate::random::random_below;
use crate::simulator::{kill_bound, MAX_KILL_SCORE, FibonacciSequence, kill_base,
    calculate_zombie_kill_score, lemma_kill_multiplier_bound};
use crate::model::MAX_POPULATION;

verus! {

/// Thousandths of a point in one point.
pub const SCORE_UNIT: u128 = 1000;
/// The multiplier 1.0.
pub const MULTIPLIER_ONE: u32 = 1000;
/// The discount rate 1.0.
pub const DISCOUNT_ONE: u32 = 1048576;
/// What a lost zombie and a lost human weigh, in thousandths (negated).
pub const POINTS_PER_ZOMBIE: u128 = 1_000_000;
pub const POINTS_PER_HUMAN: u128 = 1_000_000;
/// What each tick up to the end costs, in thousandths.
pub const POINTS_PER_TICK: u128 = 10;
/// What each milestone of a plan costs, in thousandths.
pub const POINTS_PER_MILESTONE: i128 = 1;
/// No event is worth more than this, in thousandths, either way.
pub const MAX_EVENT_VALUE: i128 = 100_000_000_000_000_000_000_000_000_000;
/// An accumulator that stays within this bound takes any tick's events.
pub const MAX_TOTAL: i128 = 1_000_000_000_000_000_000_000_000_000_000_000_000;
/// The most events that one call to `accumulate` takes.
pub const MAX_BATCH: usize = 1000;

/// The weights of one objective.
#[derive(Clone, Copy, Debug, PartialEq, Eq, Structural)]
pub struct ScoreParams {
    pub save_humans_multiplier: u32,
    pub kill_zombies_multiplier: u32,
    pub discount_rate: u32,
}

impl ScoreParams {
    /// Multipliers in `[0, 1]`, discount rate in `[1, 2]`.
    pub open spec fn wf(self) -> bool {
        &&& self.save_humans_multiplier <= MULTIPLIER_ONE
        &&& self.kill_zombies_multiplier <= MULTIPLIER_ONE
        &&& DISCOUNT_ONE <= self.discount_rate <= 2 * DISCOUNT_ONE
    }

    /// The game's own objective: kill score alone, undiscounted.
    pub fn official() -> (r: ScoreParams)
        ensures
            r.save_humans_multiplier == 0,
            r.kill_zombies_multiplier == MULTIPLIER_ONE,
            r.discount_rate == DISCOUNT_ONE,
            r.wf(),
    {
        ScoreParams {
            save_humans_multiplier: 0,
            kill_zombies_multiplier: MULTIPLIER_ONE,
            discount_rate: DISCOUNT_ONE,
        }
    }

    /// A random objective: multipliers drawn in `[0, 1)`, the discount rate
    /// in `[1, 2)`.
    pub fn gen(rng: &mut ThreadRng) -> (r: ScoreParams)
        ensures
            r.kill_zombies_multiplier < MULTIPLIER_ONE,
            r.save_humans_multiplier < MULTIPLIER_ONE,
            DISCOUNT_ONE <= r.discount_rate < 2 * DISCOUNT_ONE,
            r.wf(),
    {
        let kill = random_below(rng, MULTIPLIER_ONE as u64) as u32;
        let save = random_below(rng, MULTIPLIER_ONE as u64) as u32;
        let rate = DISCOUNT_ONE + random_below(rng, DISCOUNT_ONE as u64) as u32;
        ScoreParams {
            kill_zombies_multiplier: kill,
            save_humans_multiplier: save,
            discount_rate: rate,
        }
    }

    /// A score sheet: the official objective first, then `num_random`
    /// random ones.
    pub fn gen_sheet(rng: &mut ThreadRng, num_random: usize) -> (r: Vec<ScoreParams>)
        requires
            num_random < usize::MAX,
        ensures
            r@.len() == num_random + 1,
            r@[0] == ScoreParams::official_spec(),
            forall|i: int| 0 <= i < r@.len() ==> (#[trigger] r@[i]).wf(),
    {
        let mut r: Vec<ScoreParams> = Vec::new();
        r.push(ScoreParams::official());
        let mut i: usize = 0;
        while i < num_random
            invariant
                i <= num_random,
                r@.len() == i + 1,
                r@[0] == ScoreParams::official_spec(),
                forall|j: int| 0 <= j < r@.len() ==> (#[trigger] r@[j]).wf(),
            decreases num_random - i,
        {
            r.push(ScoreParams::gen(rng));
            i += 1;
        }
        r
    }

    pub open spec fn official_spec() -> ScoreParams {
        ScoreParams {
            save_humans_multiplier: 0,
            kill_zombies_multiplier: MULTIPLIER_ONE,
            discount_rate: DISCOUNT_ONE,
        }
    }
}

/// The discount weight after `n` ticks, `DISCOUNT_ONE / rate^n` in fixed
/// point: each tick divides the previous weight by the rate, rounding down.
pub open spec fn discount_weight(rate: int, n: nat) -> int
    decreases n,
{
    if n == 0 {
        DISCOUNT_ONE as int
    } else {
        discount_weight(rate, (n - 1) as nat) * DISCOUNT_ONE / rate
    }
}

/// Ticks from `initial_tick` to `tick`, none for an earlier tick.
pub open spec fn elapsed(initial_tick: int, tick: int) -> nat {
    if tick <= initial_tick {
        0
    } else {
        (tick - initial_tick) as nat
    }
}

/// The events that an accumulator takes: ticks and counts that the game
/// can produce.
pub open spec fn event_in_bounds(e: Event) -> bool {
    match e {
        Event::ZombieKilled { tick, score, .. } => tick >= 0 && score <= MAX_KILL_SCORE,
        Event::HumanKilled { tick, .. } => tick >= 0,
        Event::Won { tick, num_humans } => tick >= 0 && num_humans <= MAX_POPULATION,
        Event::Lost { tick, num_zombies } => tick >= 0 && num_zombies <= MAX_POPULATION,
    }
}

/// What an event adds to the score under `p`, in thousandths.
pub open spec fn event_value(p: ScoreParams, initial_tick: int, e: Event) -> int {
    let one = DISCOUNT_ONE as int;
    let m1 = MULTIPLIER_ONE as int;
    match e {
        Event::ZombieKilled { tick, score, .. } => {
            let d = discount_weight(p.discount_rate as int, elapsed(initial_tick, tick as int));
            (score * SCORE_UNIT * p.kill_zombies_multiplier * d) / (m1 * one)
        },
        Event::HumanKilled { tick, .. } => {
            let d = discount_weight(p.discount_rate as int, elapsed(initial_tick, tick as int));
            -((POINTS_PER_HUMAN * p.save_humans_multiplier * d) / (m1 * one))
        },
        Event::Won { tick, .. } => {
            let d = discount_weight(p.discount_rate as int, elapsed(initial_tick, tick as int));
            -((POINTS_PER_TICK * tick * d) / one)
        },
        Event::Lost { tick, num_zombies } => {
            let d = discount_weight(p.discount_rate as int, elapsed(initial_tick, tick as int));
            -((POINTS_PER_TICK * tick * d) / one) - ((POINTS_PER_ZOMBIE * num_zombies * d) / one)
        },
    }
}

/// What a sequence of events adds to the score under `p`.
pub open spec fn events_value(p: ScoreParams, initial_tick: int, events: Seq<Event>) -> int
    decreases events.len(),
{
    if events.len() == 0 {
        0
    } else {
        events_value(p, initial_tick, events.drop_last()) + event_value(
            p,
            initial_tick,
            events.last(),
        )
    }
}

pub proof fn lemma_events_value_append(
    p: ScoreParams,
    initial_tick: int,
    a: Seq<Event>,
    b: Seq<Event>,
)
    ensures
        events_value(p, initial_tick, a + b) == events_value(p, initial_tick, a) + events_value(
            p,
            initial_tick,
            b,
        ),
    decreases b.len(),
{
    if b.len() == 0 {
        assert(a + b =~= a);
    } else {
        lemma_events_value_append(p, initial_tick, a, b.drop_last());
        assert((a + b).drop_last() =~= a + b.drop_last());
    }
}

proof fn lemma_discount_weight_bounds(rate: int, n: nat)
    requires
        DISCOUNT_ONE <= rate,
    ensures
        0 <= discount_weight(rate, n) <= DISCOUNT_ONE,
    decreases n,
{
    if n > 0 {
        lemma_discount_weight_bounds(rate, (n - 1) as nat);
        let prev = discount_weight(rate, (n - 1) as nat);
        assert(0 <= prev * DISCOUNT_ONE / rate <= DISCOUNT_ONE) by (nonlinear_arith)
            requires
                0 <= prev <= DISCOUNT_ONE,
                DISCOUNT_ONE <= rate,
        ;
    }
}

proof fn lemma_discount_weight_flat(n: nat)
    ensures
        discount_weight(DISCOUNT_ONE as int, n) == DISCOUNT_ONE,
    decreases n,
{
    if n > 0 {
        lemma_discount_weight_flat((n - 1) as nat);
    }
}

proof fn lemma_discount_weight_zero(rate: int, a: nat, b: nat)
    requires
        DISCOUNT_ONE <= rate,
        a <= b,
        discount_weight(rate, a) == 0,
    ensures
        discount_weight(rate, b) == 0,
    decreases b - a,
{
    if a < b {
        lemma_discount_weight_zero(rate, a, (b - 1) as nat);
    }
}

/// Every event in bounds is worth at most `MAX_EVENT_VALUE` either way.
pub proof fn lemma_event_value_bound(p: ScoreParams, initial_tick: int, e: Event)
    requires
        p.wf(),
        event_in_bounds(e),
    ensures
        -MAX_EVENT_VALUE <= event_value(p, initial_tick, e) <= MAX_EVENT_VALUE,
{
    let one = DISCOUNT_ONE as int;
    let m1 = MULTIPLIER_ONE as int;
    let tick: int = match e {
        Event::ZombieKilled { tick, .. } => tick as int,
        Event::HumanKilled { tick, .. } => tick as int,
        Event::Won { tick, .. } => tick as int,
        Event::Lost { tick, .. } => tick as int,
    };
    let d = discount_weight(p.discount_rate as int, elapsed(initial_tick, tick));
    lemma_discount_weight_bounds(p.discount_rate as int, elapsed(initial_tick, tick));
    match e {
        Event::ZombieKilled { score, .. } => {
            let k = p.kill_zombies_multiplier as int;
            assert(0 <= (score * SCORE_UNIT * k * d) / (m1 * one) <= score * SCORE_UNIT)
                by (nonlinear_arith)
                requires
                    0 <= k <= m1,
                    0 <= d <= one,
                    m1 > 0,
                    one > 0,
                    score >= 0,
            ;
        },
        Event::HumanKilled { .. } => {
            let s = p.save_humans_multiplier as int;
            assert(0 <= (POINTS_PER_HUMAN * s * d) / (m1 * one) <= POINTS_PER_HUMAN)
                by (nonlinear_arith)
                requires
                    0 <= s <= m1,
                    0 <= d <= one,
                    m1 > 0,
                    one > 0,
            ;
        },
        Event::Won { .. } => {
            assert(0 <= (POINTS_PER_TICK * tick * d) / one <= POINTS_PER_TICK * tick)
                by (nonlinear_arith)
                requires
                    0 <= tick,
                    0 <= d <= one,
                    one > 0,
            ;
        },
        Event::Lost { num_zombies, .. } => {
            assert(0 <= (POINTS_PER_TICK * tick * d) / one <= POINTS_PER_TICK * tick)
                by (nonlinear_arith)
                requires
                    0 <= tick,
                    0 <= d <= one,
                    one > 0,
            ;
            assert(0 <= (POINTS_PER_ZOMBIE * num_zombies * d) / one <= POINTS_PER_ZOMBIE
                * num_zombies) by (nonlinear_arith)
                requires
                    0 <= num_zombies,
                    0 <= d <= one,
                    one > 0,
            ;
        },
    }
}

/// The running score of one rollout under one objective.
#[derive(Clone, Copy, Debug)]
pub struct ScoreAccumulator {
    pub initial_tick: i32,
    pub total_score: i128,
    pub params: ScoreParams,
}

impl ScoreAccumulator {
    pub open spec fn wf(&self) -> bool {
        &&& self.params.wf()
        &&& self.initial_tick >= 0
        &&& -MAX_TOTAL <= self.total_score <= MAX_TOTAL
    }

    /// A zero score counted from the world's tick.
    pub fn new(world: &World, params: &ScoreParams) -> (r: ScoreAccumulator)
        requires
            params.wf(),
            world@.wf(),
        ensures
            r.initial_tick == world.tick,
            r.total_score == 0,
            r.params == *params,
            r.wf(),
    {
        ScoreAccumulator { initial_tick: world.tick, total_score: 0, params: *params }
    }

    /// Charges the plan's length: each milestone costs a thousandth.
    pub fn evaluate_strategy(&mut self, strategy: &Strategy)
        requires
            -MAX_TOTAL + strategy.milestones@.len() <= old(self).total_score,
            old(self).total_score <= MAX_TOTAL,
        ensures
            final(self).total_score == old(self).total_score - POINTS_PER_MILESTONE
                * strategy.milestones@.len(),
            final(self).initial_tick == old(self).initial_tick,
            final(self).params == old(self).params,
    {
        self.total_score = self.total_score - POINTS_PER_MILESTONE * (
        strategy.milestones.len() as i128);
    }

    /// The discount weight of an event of tick `tick`.
    pub fn discount(&self, tick: i32) -> (r: u128)
        requires
            self.params.wf(),
        ensures
            r == discount_weight(
                self.params.discount_rate as int,
                elapsed(self.initial_tick as int, tick as int),
            ),
            r <= DISCOUNT_ONE,
    {
        let rate = self.params.discount_rate as u128;
        let ghost n = elapsed(self.initial_tick as int, tick as int);
        if tick <= self.initial_tick {
            return DISCOUNT_ONE as u128;
        }
        if self.params.discount_rate == DISCOUNT_ONE {
            proof {
                lemma_discount_weight_flat(n);
            }
            return DISCOUNT_ONE as u128;
        }
        let steps = (tick as i64 - self.initial_tick as i64) as u64;
        let mut d: u128 = DISCOUNT_ONE as u128;
        let mut i: u64 = 0;
        while i < steps
            invariant
                i <= steps,
                steps == n,
                n == elapsed(self.initial_tick as int, tick as int),
                rate == self.params.discount_rate,
                DISCOUNT_ONE <= rate,
                d == discount_weight(rate as int, i as nat),
                d <= DISCOUNT_ONE,
            decreases steps - i,
        {
            if d == 0 {
                proof {
                    lemma_discount_weight_zero(rate as int, i as nat, n);
                }
                return 0;
            }
            proof {
                lemma_discount_weight_bounds(rate as int, (i + 1) as nat);
            }
            d = d * (DISCOUNT_ONE as u128) / rate;
            i += 1;
        }
        d
    }

    /// The value of one event under this accumulator's objective.
    fn event_value(&self, event: &Event) -> (r: i128)
        requires
            self.wf(),
            event_in_bounds(*event),
        ensures
            r == event_value(self.params, self.initial_tick as int, *event),
    {
        proof {
            lemma_event_value_bound(self.params, self.initial_tick as int, *event);
        }
        let one = DISCOUNT_ONE as u128;
        let m1 = MULTIPLIER_ONE as u128;
        match event {
            Event::ZombieKilled { tick, score, .. } => {
                let d = self.discount(*tick);
                let k = self.params.kill_zombies_multiplier as u128;
                let a = *score * SCORE_UNIT;
                assert(a * k <= 57314784401381708410100000000 * 1000) by (nonlinear_arith)
                    requires
                        a <= 57314784401381708410100000000,
                        k <= 1000,
                ;
                let b = a * k;
                assert(b * d <= 57314784401381708410100000000 * 1000 * 1048576) by (nonlinear_arith)
                    requires
                        b <= 57314784401381708410100000000 * 1000,
                        d <= 1048576,
                ;
                ((b * d) / (m1 * one)) as i128
            },
            Event::HumanKilled { tick, .. } => {
                let d = self.discount(*tick);
                let s = self.params.save_humans_multiplier as u128;
                assert(POINTS_PER_HUMAN * s * d <= 1_000_000 * 1000 * 1048576) by (nonlinear_arith)
                    requires
                        s <= 1000,
                        d <= 1048576,
                ;
                -(((POINTS_PER_HUMAN * s * d) / (m1 * one)) as i128)
            },
            Event::Won { tick, .. } => {
                let d = self.discount(*tick);
                let t = *tick as u128;
                assert(POINTS_PER_TICK * t * d <= 10 * 2147483647 * 1048576) by (nonlinear_arith)
                    requires
                        t <= 2147483647,
                        d <= 1048576,
                ;
                -(((POINTS_PER_TICK * t * d) / one) as i128)
            },
            Event::Lost { tick, num_zombies } => {
                let d = self.discount(*tick);
                let t = *tick as u128;
                let z = *num_zombies as u128;
                assert(POINTS_PER_TICK * t * d <= 10 * 2147483647 * 1048576) by (nonlinear_arith)
                    requires
                        t <= 2147483647,
                        d <= 1048576,
                ;
                assert(POINTS_PER_ZOMBIE * z * d <= 1_000_000 * 100 * 1048576) by (nonlinear_arith)
                    requires
                        z <= 100,
                        d <= 1048576,
                ;
                -(((POINTS_PER_TICK * t * d) / one) as i128) - (((POINTS_PER_ZOMBIE * z * d) / one) as i128)
            },
        }
    }

    /// Adds the value of each event, in order.
    pub fn accumulate(&mut self, events: &Vec<Event>)
        requires
            old(self).wf(),
            -MAX_TOTAL + events@.len() * MAX_EVENT_VALUE <= old(self).total_score,
            old(self).total_score <= MAX_TOTAL - events@.len() * MAX_EVENT_VALUE,
            events@.len() <= MAX_BATCH,
            forall|i: int| 0 <= i < events@.len() ==> event_in_bounds(#[trigger] events@[i]),
        ensures
            final(self).total_score == old(self).total_score + events_value(
                old(self).params,
                old(self).initial_tick as int,
                events@,
            ),
            final(self).initial_tick == old(self).initial_tick,
            final(self).params == old(self).params,
    {
        let ghost start = self.total_score;
        let mut i: usize = 0;
        while i < events.len()
            invariant
                i <= events.len() <= MAX_BATCH,
                self.params.wf(),
                self.initial_tick >= 0,
                self.params == old(self).params,
                self.initial_tick == old(self).initial_tick,
                start == old(self).total_score,
                -MAX_TOTAL + events@.len() * MAX_EVENT_VALUE <= start,
                start <= MAX_TOTAL - events@.len() * MAX_EVENT_VALUE,
                forall|j: int| 0 <= j < events@.len() ==> event_in_bounds(#[trigger] events@[j]),
                self.total_score == start + events_value(
                    self.params,
                    self.initial_tick as int,
                    events@.subrange(0, i as int),
                ),
                -(i as int) * MAX_EVENT_VALUE <= self.total_score - start <= (i as int) * MAX_EVENT_VALUE,
            decreases events.len() - i,
        {
            let ghost prefix = events@.subrange(0, i as int + 1);
            assert(prefix.drop_last() =~= events@.subrange(0, i as int));
            proof {
                lemma_event_value_bound(self.params, self.initial_tick as int, events@[i as int]);
                assert(-MAX_TOTAL <= self.total_score <= MAX_TOTAL) by (nonlinear_arith)
                    requires
                        -MAX_TOTAL + events@.len() * MAX_EVENT_VALUE <= start,
                        start <= MAX_TOTAL - events@.len() * MAX_EVENT_VALUE,
                        -(i as int) * MAX_EVENT_VALUE <= self.total_score - start <= (i as int) * MAX_EVENT_VALUE,
                        i < events@.len(),
                        MAX_EVENT_VALUE > 0,
                ;
            }
            let v = self.event_value(&events[i]);
            self.total_score = self.total_score + v;
            i += 1;
        }
        assert(events@.subrange(0, i as int) =~= events@);
    }

    /// The score plus all that the remaining zombies could still bring:
    /// `total_score + SCORE_UNIT * kill_bound(Z, H)`.
    pub fn upper_bound(&self, world: &World) -> (r: i128)
        requires
            world@.wf(),
            -MAX_TOTAL <= self.total_score <= MAX_TOTAL,
        ensures
            r == self.total_score + SCORE_UNIT * kill_bound(
                world@.zombies.len(),
                world@.humans.len(),
            ),
    {
        assert(10 * world@.humans.len() * world@.humans.len() <= 100000) by (nonlinear_arith)
            requires
                world@.humans.len() <= 100,
        ;
        let base = calculate_zombie_kill_score(world.humans.len());
        let mut sequence = FibonacciSequence::new();
        let mut sum: u128 = 0;
        let mut k: usize = 0;
        let z = world.zombies.len();
        while k < z
            invariant
                k <= z <= MAX_POPULATION,
                base == kill_base(world@.humans.len()),
                base <= 100000,
                sequence.wf(),
                sequence.taken() == k,
                sum == kill_bound(k as nat, world@.humans.len()),
                sum <= k * 57314784401381708410100000,
            decreases z - k,
        {
            let m = sequence.next();
            proof {
                lemma_kill_multiplier_bound((k + 1) as nat);
                assert(m * base <= 57314784401381708410100000) by (nonlinear_arith)
                    requires
                        m <= 573147844013817084101,
                        base <= 100000,
                ;
            }
            sum = sum + m * base;
            k += 1;
        }
        self.total_score + (sum * SCORE_UNIT) as i128
    }
}

/// A sequence of events in bounds is worth at most `MAX_EVENT_VALUE` per
/// event either way.
pub proof fn lemma_events_value_bound(p: ScoreParams, initial_tick: int, events: Seq<Event>)
    requires
        p.wf(),
        forall|i: int| 0 <= i < events.len() ==> event_in_bounds(#[trigger] events[i]),
    ensures
        -(events.len() * MAX_EVENT_VALUE) <= events_value(p, initial_tick, events) <= events.len()
            * MAX_EVENT_VALUE,
    decreases events.len(),
{
    if events.len() > 0 {
        lemma_events_value_bound(p, initial_tick, events.drop_last());
        lemma_event_value_bound(p, initial_tick, events.last());
        assert(events.len() * MAX_EVENT_VALUE == (events.len() - 1) * MAX_EVENT_VALUE
            + MAX_EVENT_VALUE) by (nonlinear_arith);
    }
}

} // verus!
