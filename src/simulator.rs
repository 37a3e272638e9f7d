//! The one-tick state transition of the game and the events it reports.
use vstd::prelude::*;
use crate::geometry::{V2, lemma_step_toward_bounds};
use crate::model::{
    Action, Event, Human, World, WorldView, Zombie, MAX_ASH_KILL_RANGE, MAX_ASH_STEP,
    MAX_POPULATION, MAX_ZOMBIE_STEP, unique_human_ids, unique_zombie_ids,
};

verus! {

/// The Fibonacci numbers, `fib(0) == 0`, `fib(1) == 1`.
pub open spec fn fib(n: nat) -> nat
    decreases n,
{
    if n == 0 {
        0
    } else if n == 1 {
        1
    } else {
        fib((n - 1) as nat) + fib((n - 2) as nat)
    }
}

/// The multiplier of the `k`-th kill of a tick: 1, 2, 3, 5, 8, ...
pub open spec fn kill_multiplier(k: nat) -> nat {
    fib(k + 1)
}

/// The largest score of one kill: the hundredth kill with a hundred humans.
pub const MAX_KILL_SCORE: u128 = 57314784401381708410100000;

pub proof fn lemma_fib_monotone(i: nat, j: nat)
    requires
        i <= j,
    ensures
        fib(i) <= fib(j),
    decreases j - i,
{
    if i < j {
        lemma_fib_monotone(i, (j - 1) as nat);
    }
}

spec fn fib_from(n: nat, a: nat, b: nat) -> nat
    decreases n,
{
    if n == 0 {
        a
    } else {
        fib_from((n - 1) as nat, b, a + b)
    }
}

proof fn lemma_fib_from(n: nat, k: nat)
    ensures
        fib_from(n, fib(k), fib(k + 1)) == fib(n + k),
    decreases n,
{
    if n > 0 {
        assert(fib(k + 2) == fib(k) + fib(k + 1));
        lemma_fib_from((n - 1) as nat, k + 1);
        assert((n - 1) as nat + (k + 1) == n + k);
    }
}

proof fn lemma_fib_101()
    ensures
        fib(101) == 573147844013817084101,
{
    lemma_fib_from(101, 0);
    reveal_with_fuel(fib, 2);
    assert(fib_from(101, 0, 1) == fib_from(91, 55, 89)) by {
        reveal_with_fuel(fib_from, 11);
    }
    assert(fib_from(91, 55, 89) == fib_from(81, 6765, 10946)) by {
        reveal_with_fuel(fib_from, 11);
    }
    assert(fib_from(81, 6765, 10946) == fib_from(71, 832040, 1346269)) by {
        reveal_with_fuel(fib_from, 11);
    }
    assert(fib_from(71, 832040, 1346269) == fib_from(61, 102334155, 165580141)) by {
        reveal_with_fuel(fib_from, 11);
    }
    assert(fib_from(61, 102334155, 165580141) == fib_from(51, 12586269025, 20365011074)) by {
        reveal_with_fuel(fib_from, 11);
    }
    assert(fib_from(51, 12586269025, 20365011074) == fib_from(41, 1548008755920, 2504730781961)) by {
        reveal_with_fuel(fib_from, 11);
    }
    assert(fib_from(41, 1548008755920, 2504730781961) == fib_from(31, 190392490709135, 308061521170129)) by {
        reveal_with_fuel(fib_from, 11);
    }
    assert(fib_from(31, 190392490709135, 308061521170129) == fib_from(21, 23416728348467685, 37889062373143906)) by {
        reveal_with_fuel(fib_from, 11);
    }
    assert(fib_from(21, 23416728348467685, 37889062373143906) == fib_from(11, 2880067194370816120, 4660046610375530309)) by {
        reveal_with_fuel(fib_from, 11);
    }
    assert(fib_from(11, 2880067194370816120, 4660046610375530309) == fib_from(1, 354224848179261915075, 573147844013817084101)) by {
        reveal_with_fuel(fib_from, 11);
    }
    assert(fib_from(1, 354224848179261915075, 573147844013817084101) == 573147844013817084101) by {
        reveal_with_fuel(fib_from, 2);
    }
}

/// Every kill multiplier of a tick fits the population bound.
pub proof fn lemma_kill_multiplier_bound(k: nat)
    requires
        1 <= k <= MAX_POPULATION,
    ensures
        1 <= kill_multiplier(k) <= 573147844013817084101,
{
    lemma_fib_101();
    lemma_fib_monotone(k + 1, 101);
    lemma_fib_monotone(2, k + 1);
    reveal_with_fuel(fib, 3);
}

/// Hands out the kill multipliers 1, 2, 3, 5, 8, ... in turn.
pub struct FibonacciSequence {
    previous: (u128, u128),
    taken: Ghost<nat>,
}

impl FibonacciSequence {
    /// How many multipliers were handed out.
    pub closed spec fn taken(&self) -> nat {
        self.taken@
    }

    pub closed spec fn wf(&self) -> bool {
        self.previous.0 == fib(self.taken@) && self.previous.1 == fib(self.taken@ + 1)
    }

    pub fn new() -> (r: FibonacciSequence)
        ensures
            r.wf(),
            r.taken() == 0,
    {
        proof {
            reveal_with_fuel(fib, 2);
        }
        FibonacciSequence { previous: (0, 1), taken: Ghost(0) }
    }

    /// The next multiplier: the `k`-th call returns `kill_multiplier(k)`.
    pub fn next(&mut self) -> (r: u128)
        requires
            old(self).wf(),
            old(self).taken() < MAX_POPULATION,
        ensures
            final(self).wf(),
            final(self).taken() == old(self).taken() + 1,
            r == kill_multiplier(final(self).taken()),
    {
        let (a, b) = self.previous;
        proof {
            let n = self.taken@;
            lemma_kill_multiplier_bound(n + 1);
            lemma_fib_monotone(n, n + 2);
            lemma_fib_monotone(n + 1, n + 2);
            assert(fib(n + 2) == fib(n) + fib(n + 1));
        }
        let result = a + b;
        self.previous = (b, result);
        self.taken = Ghost(self.taken@ + 1);
        result
    }
}

/// The player's kill radius, squared.
pub open spec fn in_kill_range(z: Zombie, p: V2) -> bool {
    z.pos.dist2(p) <= MAX_ASH_KILL_RANGE * MAX_ASH_KILL_RANGE
}

/// Every zombie steps onto the point it announced.
pub open spec fn moved_zombies(zs: Seq<Zombie>) -> Seq<Zombie> {
    zs.map_values(|z: Zombie| Zombie { id: z.id, pos: z.next, next: z.next })
}

/// The zombies out of the player's reach at `p`, in order.
pub open spec fn surviving_zombies(zs: Seq<Zombie>, p: V2) -> Seq<Zombie>
    decreases zs.len(),
{
    if zs.len() == 0 {
        seq![]
    } else {
        let rest = surviving_zombies(zs.drop_last(), p);
        if in_kill_range(zs.last(), p) {
            rest
        } else {
            rest.push(zs.last())
        }
    }
}

/// One `ZombieKilled` per zombie in reach, in order; the `k`-th scores
/// `kill_multiplier(k) * base`.
pub open spec fn kill_events(zs: Seq<Zombie>, p: V2, tick: i32, base: nat) -> Seq<Event>
    decreases zs.len(),
{
    if zs.len() == 0 {
        seq![]
    } else {
        let rest = kill_events(zs.drop_last(), p, tick, base);
        if in_kill_range(zs.last(), p) {
            rest.push(
                Event::ZombieKilled {
                    tick,
                    zombie_id: zs.last().id,
                    score: (kill_multiplier(rest.len() + 1) * base) as u128,
                },
            )
        } else {
            rest
        }
    }
}

/// The base score of a kill with `h` humans alive: `10 * h * h`.
pub open spec fn kill_base(h: nat) -> nat {
    10 * h * h
}

/// A zombie stands on the human.
pub open spec fn is_caught(h: Human, zs: Seq<Zombie>) -> bool {
    exists|j: int| 0 <= j < zs.len() && zs[j].pos == h.pos
}

pub open spec fn surviving_humans(hs: Seq<Human>, zs: Seq<Zombie>) -> Seq<Human>
    decreases hs.len(),
{
    if hs.len() == 0 {
        seq![]
    } else {
        let rest = surviving_humans(hs.drop_last(), zs);
        if is_caught(hs.last(), zs) {
            rest
        } else {
            rest.push(hs.last())
        }
    }
}

pub open spec fn human_events(hs: Seq<Human>, zs: Seq<Zombie>, tick: i32) -> Seq<Event>
    decreases hs.len(),
{
    if hs.len() == 0 {
        seq![]
    } else {
        let rest = human_events(hs.drop_last(), zs, tick);
        if is_caught(hs.last(), zs) {
            rest.push(Event::HumanKilled { tick, human_id: hs.last().id })
        } else {
            rest
        }
    }
}

/// The target a zombie at `from` chases: the closest of the player and the
/// humans, the first one met on a tie.
pub open spec fn closest_target(from: V2, player: V2, hs: Seq<Human>) -> V2
    decreases hs.len(),
{
    if hs.len() == 0 {
        player
    } else {
        let c = closest_target(from, player, hs.drop_last());
        if from.dist2(hs.last().pos) < from.dist2(c) {
            hs.last().pos
        } else {
            c
        }
    }
}

pub open spec fn retargeted(zs: Seq<Zombie>, player: V2, hs: Seq<Human>) -> Seq<Zombie> {
    zs.map_values(
        |z: Zombie|
            Zombie {
                id: z.id,
                pos: z.pos,
                next: z.pos.step_toward(closest_target(z.pos, player, hs), MAX_ZOMBIE_STEP as int),
            },
    )
}

pub open spec fn ending_events(tick: i32, hs: Seq<Human>, zs: Seq<Zombie>) -> Seq<Event> {
    if hs.len() == 0 {
        seq![Event::Lost { tick, num_zombies: zs.len() as usize }]
    } else if zs.len() == 0 {
        seq![Event::Won { tick, num_humans: hs.len() as usize }]
    } else {
        seq![]
    }
}

/// Where the player stands after a tick with `a`.
pub open spec fn moved_ash(w: WorldView, a: Action) -> V2 {
    w.ash.step_toward(a.target, MAX_ASH_STEP as int)
}

pub open spec fn zombies_after_kills(w: WorldView, a: Action) -> Seq<Zombie> {
    surviving_zombies(moved_zombies(w.zombies), moved_ash(w, a))
}

pub open spec fn humans_after_tick(w: WorldView, a: Action) -> Seq<Human> {
    let zs = zombies_after_kills(w, a);
    if zs.len() > 0 {
        surviving_humans(w.humans, zs)
    } else {
        w.humans
    }
}

/// The world after one tick with action `a`.
pub open spec fn next_view(w: WorldView, a: Action) -> WorldView {
    if w.is_over() {
        WorldView { tick: w.tick + 1, ..w }
    } else {
        let p = moved_ash(w, a);
        let hs = humans_after_tick(w, a);
        WorldView {
            tick: w.tick + 1,
            ash: p,
            humans: hs,
            zombies: retargeted(zombies_after_kills(w, a), p, hs),
        }
    }
}

/// The events of one tick with action `a`, in the order they happen.
pub open spec fn next_events(w: WorldView, a: Action) -> Seq<Event> {
    let tick = (w.tick + 1) as i32;
    if w.is_over() {
        seq![]
    } else {
        let p = moved_ash(w, a);
        let zs = zombies_after_kills(w, a);
        let hs = humans_after_tick(w, a);
        let caught = if zs.len() > 0 {
            human_events(w.humans, zs, tick)
        } else {
            seq![]
        };
        kill_events(moved_zombies(w.zombies), p, tick, kill_base(w.humans.len()))
            + caught + ending_events(tick, hs, zs)
    }
}

/// Every element of `surviving_zombies(zs, p)` comes from `zs`, no more
/// of them than there were.
pub proof fn lemma_surviving_zombies(zs: Seq<Zombie>, p: V2)
    ensures
        surviving_zombies(zs, p).len() <= zs.len(),
        forall|i: int|
            0 <= i < surviving_zombies(zs, p).len() ==> exists|j: int|
                0 <= j < zs.len() && #[trigger] surviving_zombies(zs, p)[i] == zs[j],
        unique_zombie_ids(zs) ==> unique_zombie_ids(surviving_zombies(zs, p)),
    decreases zs.len(),
{
    if zs.len() > 0 {
        let rest = surviving_zombies(zs.drop_last(), p);
        lemma_surviving_zombies(zs.drop_last(), p);
        let r = surviving_zombies(zs, p);
        assert forall|i: int| 0 <= i < r.len() implies exists|j: int|
            0 <= j < zs.len() && #[trigger] r[i] == zs[j] by {
            if i < rest.len() {
                let j = choose|j: int| 0 <= j < zs.drop_last().len() && rest[i] == zs.drop_last()[j];
                assert(r[i] == zs[j]);
            } else {
                assert(r[i] == zs[zs.len() - 1]);
            }
        }
        if unique_zombie_ids(zs) {
            assert forall|a: int, b: int| 0 <= a < b < r.len() implies r[a].id != r[b].id by {
                if b < rest.len() {
                    assert(r[a] == rest[a] && r[b] == rest[b]);
                } else {
                    assert(r[a] == rest[a]);
                    let j = choose|j: int| 0 <= j < zs.drop_last().len() && rest[a] == zs.drop_last()[j];
                    assert(r[b] == zs[zs.len() - 1]);
                    assert(zs[j].id != zs[zs.len() - 1].id);
                }
            }
        }
    }
}

pub proof fn lemma_surviving_humans(hs: Seq<Human>, zs: Seq<Zombie>)
    ensures
        surviving_humans(hs, zs).len() <= hs.len(),
        forall|i: int|
            0 <= i < surviving_humans(hs, zs).len() ==> exists|j: int|
                0 <= j < hs.len() && #[trigger] surviving_humans(hs, zs)[i] == hs[j],
        unique_human_ids(hs) ==> unique_human_ids(surviving_humans(hs, zs)),
    decreases hs.len(),
{
    if hs.len() > 0 {
        let rest = surviving_humans(hs.drop_last(), zs);
        lemma_surviving_humans(hs.drop_last(), zs);
        let r = surviving_humans(hs, zs);
        assert forall|i: int| 0 <= i < r.len() implies exists|j: int|
            0 <= j < hs.len() && #[trigger] r[i] == hs[j] by {
            if i < rest.len() {
                let j = choose|j: int| 0 <= j < hs.drop_last().len() && rest[i] == hs.drop_last()[j];
                assert(r[i] == hs[j]);
            } else {
                assert(r[i] == hs[hs.len() - 1]);
            }
        }
        if unique_human_ids(hs) {
            assert forall|a: int, b: int| 0 <= a < b < r.len() implies r[a].id != r[b].id by {
                if b < rest.len() {
                    assert(r[a] == rest[a] && r[b] == rest[b]);
                } else {
                    assert(r[a] == rest[a]);
                    let j = choose|j: int| 0 <= j < hs.drop_last().len() && rest[a] == hs.drop_last()[j];
                    assert(r[b] == hs[hs.len() - 1]);
                    assert(hs[j].id != hs[hs.len() - 1].id);
                }
            }
        }
    }
}

pub proof fn lemma_kill_events_len(zs: Seq<Zombie>, p: V2, tick: i32, base: nat)
    ensures
        kill_events(zs, p, tick, base).len() + surviving_zombies(zs, p).len() == zs.len(),
    decreases zs.len(),
{
    if zs.len() > 0 {
        lemma_kill_events_len(zs.drop_last(), p, tick, base);
    }
}

/// Each zombie steps onto the point that it announced.
fn move_zombies(zombies: &Vec<Zombie>) -> (r: Vec<Zombie>)
    ensures
        r@ == moved_zombies(zombies@),
{
    let mut r: Vec<Zombie> = Vec::new();
    let mut i: usize = 0;
    while i < zombies.len()
        invariant
            i <= zombies.len(),
            r@ == moved_zombies(zombies@.subrange(0, i as int)),
        decreases zombies.len() - i,
    {
        let z = zombies[i];
        r.push(Zombie { id: z.id, pos: z.next, next: z.next });
        i += 1;
        assert(r@ =~= moved_zombies(zombies@.subrange(0, i as int)));
    }
    assert(zombies@.subrange(0, i as int) =~= zombies@);
    r
}

/// Removes the zombies within the player's reach, reporting each kill.
fn destroy_zombies(
    zombies: &Vec<Zombie>,
    ash: V2,
    tick: i32,
    num_humans: usize,
    events: &mut Vec<Event>,
) -> (r: Vec<Zombie>)
    requires
        zombies@.len() <= MAX_POPULATION,
        num_humans <= MAX_POPULATION,
        ash.in_range(),
        forall|i: int| 0 <= i < zombies@.len() ==> (#[trigger] zombies@[i]).pos.in_range(),
    ensures
        r@ == surviving_zombies(zombies@, ash),
        final(events)@ == old(events)@ + kill_events(
            zombies@,
            ash,
            tick,
            kill_base(num_humans as nat),
        ),
{
    let ghost base = kill_base(num_humans as nat);
    assert(base <= 100000) by (nonlinear_arith)
        requires
            base == 10 * num_humans * num_humans,
            num_humans <= 100,
    ;
    assert(10 * num_humans * num_humans <= 100000) by (nonlinear_arith)
        requires
            num_humans <= 100,
    ;
    let base_kill_score = calculate_zombie_kill_score(num_humans);
    let mut multiplier_sequence = FibonacciSequence::new();
    let mut r: Vec<Zombie> = Vec::new();
    let mut i: usize = 0;
    while i < zombies.len()
        invariant
            i <= zombies.len() <= MAX_POPULATION,
            ash.in_range(),
            forall|j: int| 0 <= j < zombies@.len() ==> (#[trigger] zombies@[j]).pos.in_range(),
            base_kill_score == base,
            base <= 100000,
            multiplier_sequence.wf(),
            multiplier_sequence.taken() == kill_events(
                zombies@.subrange(0, i as int),
                ash,
                tick,
                base,
            ).len(),
            multiplier_sequence.taken() <= i,
            r@ == surviving_zombies(zombies@.subrange(0, i as int), ash),
            events@ == old(events)@ + kill_events(zombies@.subrange(0, i as int), ash, tick, base),
        decreases zombies.len() - i,
    {
        let z = zombies[i];
        let ghost prefix = zombies@.subrange(0, i as int);
        let ghost next_prefix = zombies@.subrange(0, i as int + 1);
        assert(next_prefix.drop_last() =~= prefix);
        assert(next_prefix.last() == z);
        let d = z.pos.distance_to_squared(ash);
        if d <= MAX_ASH_KILL_RANGE * MAX_ASH_KILL_RANGE {
            let multiplier = multiplier_sequence.next();
            proof {
                lemma_kill_multiplier_bound(multiplier_sequence.taken());
                assert(multiplier * base_kill_score <= 573147844013817084101 * 100000)
                    by (nonlinear_arith)
                    requires
                        multiplier <= 573147844013817084101,
                        base_kill_score <= 100000,
                ;
            }
            events.push(
                Event::ZombieKilled {
                    tick,
                    zombie_id: z.id,
                    score: multiplier * base_kill_score,
                },
            );
        } else {
            r.push(z);
        }
        i += 1;
        assert(events@ =~= old(events)@ + kill_events(next_prefix, ash, tick, base));
    }
    assert(zombies@.subrange(0, i as int) =~= zombies@);
    r
}

/// The base score of one kill with `num_humans` humans alive.
pub fn calculate_zombie_kill_score(num_humans: usize) -> (r: u128)
    requires
        10 * num_humans * num_humans <= u128::MAX,
    ensures
        r == kill_base(num_humans as nat),
        num_humans <= MAX_POPULATION ==> r <= 100000,
{
    let h = num_humans as u128;
    assert(h <= 100 ==> 10 * h * h <= 100000) by (nonlinear_arith);
    10 * h * h
}

/// Whether a zombie of `zombies` stands on `human`.
fn is_human_caught(human: &Human, zombies: &Vec<Zombie>) -> (r: bool)
    ensures
        r == is_caught(*human, zombies@),
{
    let mut i: usize = 0;
    while i < zombies.len()
        invariant
            i <= zombies.len(),
            forall|j: int| 0 <= j < i ==> zombies@[j].pos != human.pos,
        decreases zombies.len() - i,
    {
        if zombies[i].pos == human.pos {
            return true;
        }
        i += 1;
    }
    false
}

/// Removes the humans that a zombie stands on, reporting each.
fn destroy_humans(
    humans: &Vec<Human>,
    zombies: &Vec<Zombie>,
    tick: i32,
    events: &mut Vec<Event>,
) -> (r: Vec<Human>)
    ensures
        r@ == surviving_humans(humans@, zombies@),
        final(events)@ == old(events)@ + human_events(humans@, zombies@, tick),
{
    let mut r: Vec<Human> = Vec::new();
    let mut i: usize = 0;
    while i < humans.len()
        invariant
            i <= humans.len(),
            r@ == surviving_humans(humans@.subrange(0, i as int), zombies@),
            events@ == old(events)@ + human_events(humans@.subrange(0, i as int), zombies@, tick),
        decreases humans.len() - i,
    {
        let h = humans[i];
        let ghost prefix = humans@.subrange(0, i as int);
        let ghost next_prefix = humans@.subrange(0, i as int + 1);
        assert(next_prefix.drop_last() =~= prefix);
        assert(next_prefix.last() == h);
        if is_human_caught(&h, zombies) {
            events.push(Event::HumanKilled { tick, human_id: h.id });
        } else {
            r.push(h);
        }
        i += 1;
        assert(events@ =~= old(events)@ + human_events(next_prefix, zombies@, tick));
    }
    assert(humans@.subrange(0, i as int) =~= humans@);
    r
}

/// The point a zombie at `from` chases next.
fn find_target(from: V2, player: V2, humans: &Vec<Human>) -> (r: V2)
    requires
        from.in_range(),
        player.in_range(),
        forall|i: int| 0 <= i < humans@.len() ==> (#[trigger] humans@[i]).pos.in_range(),
    ensures
        r == closest_target(from, player, humans@),
        r.in_range(),
{
    let mut target = player;
    let mut target_distance = from.distance_to_squared(target);
    let mut i: usize = 0;
    while i < humans.len()
        invariant
            i <= humans.len(),
            from.in_range(),
            forall|j: int| 0 <= j < humans@.len() ==> (#[trigger] humans@[j]).pos.in_range(),
            target == closest_target(from, player, humans@.subrange(0, i as int)),
            target.in_range(),
            target_distance == from.dist2(target),
        decreases humans.len() - i,
    {
        let h = humans[i];
        let ghost next_prefix = humans@.subrange(0, i as int + 1);
        assert(next_prefix.drop_last() =~= humans@.subrange(0, i as int));
        assert(next_prefix.last() == h);
        let distance = from.distance_to_squared(h.pos);
        if distance < target_distance {
            target_distance = distance;
            target = h.pos;
        }
        i += 1;
    }
    assert(humans@.subrange(0, i as int) =~= humans@);
    target
}

/// Each zombie announces its next point: a bounded step toward its target.
fn update_zombie_targets(zombies: &Vec<Zombie>, player: V2, humans: &Vec<Human>) -> (r: Vec<
    Zombie,
>)
    requires
        player.in_range(),
        forall|i: int| 0 <= i < humans@.len() ==> (#[trigger] humans@[i]).pos.in_range(),
        forall|i: int| 0 <= i < zombies@.len() ==> (#[trigger] zombies@[i]).pos.in_range(),
    ensures
        r@ == retargeted(zombies@, player, humans@),
        forall|i: int| 0 <= i < r@.len() ==> (#[trigger] r@[i]).next.in_range(),
{
    let mut r: Vec<Zombie> = Vec::new();
    let mut i: usize = 0;
    while i < zombies.len()
        invariant
            i <= zombies.len(),
            player.in_range(),
            forall|j: int| 0 <= j < humans@.len() ==> (#[trigger] humans@[j]).pos.in_range(),
            forall|j: int| 0 <= j < zombies@.len() ==> (#[trigger] zombies@[j]).pos.in_range(),
            r@ == retargeted(zombies@.subrange(0, i as int), player, humans@),
            forall|j: int| 0 <= j < r@.len() ==> (#[trigger] r@[j]).next.in_range(),
        decreases zombies.len() - i,
    {
        let z = zombies[i];
        let target = find_target(z.pos, player, humans);
        let next = z.pos.towards(target, MAX_ZOMBIE_STEP);
        r.push(Zombie { id: z.id, pos: z.pos, next });
        i += 1;
        assert(r@ =~= retargeted(zombies@.subrange(0, i as int), player, humans@));
    }
    assert(zombies@.subrange(0, i as int) =~= zombies@);
    r
}

fn emit_ending(tick: i32, humans: &Vec<Human>, zombies: &Vec<Zombie>, events: &mut Vec<Event>)
    ensures
        final(events)@ == old(events)@ + ending_events(tick, humans@, zombies@),
{
    if humans.len() == 0 {
        events.push(Event::Lost { tick, num_zombies: zombies.len() });
    } else if zombies.len() == 0 {
        events.push(Event::Won { tick, num_humans: humans.len() });
    }
    assert(events@ =~= old(events)@ + ending_events(tick, humans@, zombies@));
}

fn is_over(world: &World) -> (r: bool)
    ensures
        r == world@.is_over(),
{
    world.humans.len() == 0 || world.zombies.len() == 0
}

/// Advances the world by one tick with `action`, and returns the events of
/// that tick.
pub fn next(world: &mut World, action: &Action) -> (events: Vec<Event>)
    requires
        old(world)@.wf(),
        old(world).tick < i32::MAX,
        action.target.in_range(),
    ensures
        final(world)@ == next_view(old(world)@, *action),
        events@ == next_events(old(world)@, *action),
        final(world)@.wf(),
{
    let ghost w = world@;
    world.tick = world.tick + 1;
    let mut events: Vec<Event> = Vec::new();
    if !is_over(world) {
        let moved = move_zombies(&world.zombies);
        let ash = world.ash.pos.towards(action.target, MAX_ASH_STEP);
        world.ash.pos = ash;
        assert forall|i: int| 0 <= i < moved@.len() implies (#[trigger] moved@[i]).pos.in_range() by {
            assert(w.zombies[i].next.in_range());
        }
        let zombies = destroy_zombies(&moved, ash, world.tick, world.humans.len(), &mut events);
        proof {
            lemma_surviving_zombies(moved@, ash);
            lemma_surviving_humans(w.humans, zombies@);
            assert forall|i: int| 0 <= i < zombies@.len() implies (#[trigger] zombies@[i]).pos.in_range() by {
                let j = choose|j: int| 0 <= j < moved@.len() && zombies@[i] == moved@[j];
            }
        }
        if zombies.len() > 0 {
            let humans = destroy_humans(&world.humans, &zombies, world.tick, &mut events);
            world.humans = humans;
        }
        proof {
            assert forall|i: int| 0 <= i < world.humans@.len() implies (#[trigger] world.humans@[i]).pos.in_range() by {
                if zombies@.len() > 0 {
                    let j = choose|j: int| 0 <= j < w.humans.len() && world.humans@[i] == w.humans[j];
                }
            }
        }
        let retargeted = update_zombie_targets(&zombies, ash, &world.humans);
        world.zombies = retargeted;
        emit_ending(world.tick, &world.humans, &world.zombies, &mut events);
        proof {
            assert(world@ =~= next_view(w, *action));
            assert(events@ =~= next_events(w, *action));
            assert(unique_zombie_ids(world.zombies@)) by {
                assert forall|a: int, b: int| 0 <= a < b < world.zombies@.len() implies
                    world.zombies@[a].id != world.zombies@[b].id by {
                    assert(world.zombies@[a].id == zombies@[a].id);
                    assert(world.zombies@[b].id == zombies@[b].id);
                }
            }
            assert forall|i: int| 0 <= i < world.zombies@.len() implies
                (#[trigger] world.zombies@[i]).pos.in_range() && world.zombies@[i].next.in_range() by {
                assert(world.zombies@[i].pos == zombies@[i].pos);
            }
        }
    } else {
        proof {
            assert(world@ =~= next_view(w, *action));
            assert(events@ =~= next_events(w, *action));
        }
    }
    events
}

/// The sum of the scores of the `ZombieKilled` events of `events`.
pub open spec fn kill_score_sum(events: Seq<Event>) -> int
    decreases events.len(),
{
    if events.len() == 0 {
        0
    } else {
        kill_score_sum(events.drop_last()) + match events.last() {
            Event::ZombieKilled { score, .. } => score as int,
            _ => 0,
        }
    }
}

/// `kill_multiplier(1) + ... + kill_multiplier(z)`, times the base score of
/// `h` humans: all that killing `z` zombies can score.
pub open spec fn kill_bound(z: nat, h: nat) -> int
    decreases z,
{
    if z == 0 {
        0
    } else {
        kill_bound((z - 1) as nat, h) + kill_multiplier(z) * kill_base(h)
    }
}

pub proof fn lemma_kill_events_shape(zs: Seq<Zombie>, p: V2, tick: i32, base: nat)
    requires
        zs.len() <= MAX_POPULATION,
        base <= 100000,
    ensures
        kill_events(zs, p, tick, base).len() <= zs.len(),
        forall|k: int|
            0 <= k < kill_events(zs, p, tick, base).len() ==> {
                let e = #[trigger] kill_events(zs, p, tick, base)[k];
                &&& e is ZombieKilled
                &&& e->ZombieKilled_tick == tick
                &&& e->score == kill_multiplier((k + 1) as nat) * base
            },
        kill_score_sum(kill_events(zs, p, tick, base)) == base * kill_bound_units(
            kill_events(zs, p, tick, base).len(),
        ),
    decreases zs.len(),
{
    if zs.len() > 0 {
        lemma_kill_events_shape(zs.drop_last(), p, tick, base);
        let rest = kill_events(zs.drop_last(), p, tick, base);
        let r = kill_events(zs, p, tick, base);
        if in_kill_range(zs.last(), p) {
            let k = rest.len() + 1;
            lemma_kill_multiplier_bound(k);
            assert(kill_multiplier(k) * base <= 573147844013817084101 * 100000) by (nonlinear_arith)
                requires
                    kill_multiplier(k) <= 573147844013817084101,
                    base <= 100000,
            ;
            assert(r.drop_last() =~= rest);
            assert(kill_score_sum(r) == kill_score_sum(rest) + kill_multiplier(k) * base);
            assert(base * kill_bound_units(k) == base * kill_bound_units(rest.len())
                + kill_multiplier(k) * base) by (nonlinear_arith)
                requires
                    kill_bound_units(k) == kill_bound_units(rest.len()) + kill_multiplier(k),
            ;
            assert(r.len() == k);
            assert(kill_score_sum(rest) == base * kill_bound_units(rest.len()));
            assert(kill_score_sum(r) == base * kill_bound_units(r.len()));
        } else {
            assert(r == rest);
            assert(kill_score_sum(r) == base * kill_bound_units(r.len()));
        }
    } else {
        assert(kill_events(zs, p, tick, base).len() == 0);
        assert(kill_score_sum(kill_events(zs, p, tick, base)) == 0);
        assert(base * kill_bound_units(0) == 0) by (nonlinear_arith)
            requires
                kill_bound_units(0) == 0,
        ;
    }
}

/// `kill_multiplier(1) + ... + kill_multiplier(z)`.
pub open spec fn kill_bound_units(z: nat) -> nat
    decreases z,
{
    if z == 0 {
        0
    } else {
        kill_bound_units((z - 1) as nat) + kill_multiplier(z)
    }
}

proof fn lemma_kill_bound_units(z: nat, h: nat)
    ensures
        kill_bound(z, h) == kill_bound_units(z) * kill_base(h),
    decreases z,
{
    if z > 0 {
        lemma_kill_bound_units((z - 1) as nat, h);
        assert(kill_bound_units(z) * kill_base(h) == kill_bound_units((z - 1) as nat) * kill_base(h)
            + kill_multiplier(z) * kill_base(h)) by (nonlinear_arith)
            requires
                kill_bound_units(z) == kill_bound_units((z - 1) as nat) + kill_multiplier(z),
        ;
    } else {
        assert(kill_bound_units(z) * kill_base(h) == 0) by (nonlinear_arith)
            requires
                kill_bound_units(z) == 0,
        ;
    }
}

proof fn lemma_kill_bound_units_monotone(a: nat, b: nat)
    requires
        a <= b,
    ensures
        kill_bound_units(a) <= kill_bound_units(b),
    decreases b - a,
{
    if a < b {
        lemma_kill_bound_units_monotone(a, (b - 1) as nat);
    }
}

proof fn lemma_no_kills_in(events: Seq<Event>)
    requires
        forall|i: int| 0 <= i < events.len() ==> !(#[trigger] events[i] is ZombieKilled),
    ensures
        kill_score_sum(events) == 0,
    decreases events.len(),
{
    if events.len() > 0 {
        lemma_no_kills_in(events.drop_last());
    }
}

proof fn lemma_kill_score_sum_append(a: Seq<Event>, b: Seq<Event>)
    ensures
        kill_score_sum(a + b) == kill_score_sum(a) + kill_score_sum(b),
    decreases b.len(),
{
    if b.len() == 0 {
        assert(a + b =~= a);
    } else {
        lemma_kill_score_sum_append(a, b.drop_last());
        assert((a + b).drop_last() =~= a + b.drop_last());
    }
}

pub proof fn lemma_human_events_shape(hs: Seq<Human>, zs: Seq<Zombie>, tick: i32)
    ensures
        forall|k: int|
            0 <= k < human_events(hs, zs, tick).len() ==> (#[trigger] human_events(
                hs,
                zs,
                tick,
            )[k]) is HumanKilled && human_events(hs, zs, tick)[k]->HumanKilled_tick == tick,
        human_events(hs, zs, tick).len() + surviving_humans(hs, zs).len() == hs.len(),
    decreases hs.len(),
{
    if hs.len() > 0 {
        lemma_human_events_shape(hs.drop_last(), zs, tick);
    }
}

/// Population never grows: after a tick there are at most as many humans
/// and at most as many zombies as before.
pub proof fn lemma_population_monotone(w: WorldView, a: Action)
    ensures
        next_view(w, a).zombies.len() <= w.zombies.len(),
        next_view(w, a).humans.len() <= w.humans.len(),
        forall|i: int|
            0 <= i < next_view(w, a).humans.len() ==> exists|j: int|
                0 <= j < w.humans.len() && #[trigger] next_view(w, a).humans[i] == w.humans[j],
        forall|i: int|
            0 <= i < next_view(w, a).zombies.len() ==> exists|j: int|
                0 <= j < w.zombies.len() && (#[trigger] next_view(w, a).zombies[i]).id
                    == w.zombies[j].id,
{
    let moved = moved_zombies(w.zombies);
    let zs = zombies_after_kills(w, a);
    lemma_surviving_zombies(moved, moved_ash(w, a));
    lemma_surviving_humans(w.humans, zs);
    let n = next_view(w, a);
    assert forall|i: int| 0 <= i < n.humans.len() implies exists|j: int|
        0 <= j < w.humans.len() && #[trigger] n.humans[i] == w.humans[j] by {
        if w.is_over() || zs.len() == 0 {
            assert(n.humans[i] == w.humans[i]);
        }
    }
    assert forall|i: int| 0 <= i < n.zombies.len() implies exists|j: int|
        0 <= j < w.zombies.len() && (#[trigger] n.zombies[i]).id == w.zombies[j].id by {
        if w.is_over() {
            assert(n.zombies[i] == w.zombies[i]);
        } else {
            assert(n.zombies[i].id == zs[i].id);
            let j = choose|j: int| 0 <= j < moved.len() && zs[i] == moved[j];
            assert(moved[j].id == w.zombies[j].id);
        }
    }
}

/// A tick reports its terminal event (`Won` or `Lost`) last, if at all;
/// after a terminal event the game is over, and a world that is over
/// stays over and reports nothing more.
pub proof fn lemma_terminality(w: WorldView, a: Action, later: Action)
    requires
        w.wf(),
    ensures
        forall|i: int|
            0 <= i < next_events(w, a).len() - 1 ==> !(#[trigger] next_events(w, a)[i]).is_terminal(),
        (exists|i: int| 0 <= i < next_events(w, a).len() && next_events(w, a)[i].is_terminal())
            ==> next_view(w, a).is_over(),
        next_view(w, a).is_over() ==> next_view(next_view(w, a), later).is_over(),
        next_view(w, a).is_over() ==> next_events(next_view(w, a), later).len() == 0,
{
    if !w.is_over() {
        let tick = (w.tick + 1) as i32;
        let moved = moved_zombies(w.zombies);
        let p = moved_ash(w, a);
        let zs = zombies_after_kills(w, a);
        let hs = humans_after_tick(w, a);
        let base = kill_base(w.humans.len());
        assert(base <= 100000) by (nonlinear_arith)
            requires
                base == 10 * w.humans.len() * w.humans.len(),
                w.humans.len() <= 100,
        ;
        lemma_kill_events_shape(moved, p, tick, base);
        let kills = kill_events(moved, p, tick, base);
        let caught = if zs.len() > 0 {
            human_events(w.humans, zs, tick)
        } else {
            seq![]
        };
        lemma_human_events_shape(w.humans, zs, tick);
        let ending = ending_events(tick, hs, zs);
        let ev = next_events(w, a);
        assert(ev == kills + caught + ending);
        assert forall|i: int| 0 <= i < ev.len() - 1 implies !(#[trigger] ev[i]).is_terminal() by {
            if i < kills.len() {
                assert(ev[i] == kills[i]);
            } else if i < kills.len() + caught.len() {
                assert(ev[i] == caught[i - kills.len()]);
            }
        }
        if exists|i: int| 0 <= i < ev.len() && ev[i].is_terminal() {
            let i = choose|i: int| 0 <= i < ev.len() && ev[i].is_terminal();
            if i < kills.len() {
                assert(ev[i] == kills[i]);
            } else if i < kills.len() + caught.len() {
                assert(ev[i] == caught[i - kills.len()]);
            }
            assert(ending.len() > 0);
        }
    }
}

/// One tick is a function of the world and the action: two copies of a
/// world advanced with the same action end equal and report equal events.
pub proof fn lemma_next_deterministic(w1: WorldView, w2: WorldView, a: Action)
    requires
        w1 == w2,
    ensures
        next_view(w1, a) == next_view(w2, a),
        next_events(w1, a) == next_events(w2, a),
{
}

/// Killing `k` zombies in one tick with `h` humans alive reports, first,
/// `k` kills scoring `kill_multiplier(1) * 10 * h * h`, ...,
/// `kill_multiplier(k) * 10 * h * h` in that order.
pub proof fn lemma_scoring_formula(w: WorldView, a: Action)
    requires
        w.wf(),
        !w.is_over(),
    ensures
        ({
            let k = w.zombies.len() - zombies_after_kills(w, a).len();
            forall|i: int|
                0 <= i < k ==> {
                    let e = #[trigger] next_events(w, a)[i];
                    &&& e is ZombieKilled
                    &&& e->score == kill_multiplier((i + 1) as nat) * 10 * w.humans.len()
                        * w.humans.len()
                }
        }),
        forall|i: int|
            w.zombies.len() - zombies_after_kills(w, a).len() <= i < next_events(w, a).len()
                ==> !(#[trigger] next_events(w, a)[i] is ZombieKilled),
{
    let tick = (w.tick + 1) as i32;
    let moved = moved_zombies(w.zombies);
    let p = moved_ash(w, a);
    let base = kill_base(w.humans.len());
    assert(base <= 100000) by (nonlinear_arith)
        requires
            base == 10 * w.humans.len() * w.humans.len(),
            w.humans.len() <= 100,
    ;
    lemma_kill_events_shape(moved, p, tick, base);
    lemma_kill_events_len(moved, p, tick, base);
    let kills = kill_events(moved, p, tick, base);
    assert(kills.len() == w.zombies.len() - zombies_after_kills(w, a).len());
    let zs = zombies_after_kills(w, a);
    let hs = humans_after_tick(w, a);
    let caught = if zs.len() > 0 {
        human_events(w.humans, zs, tick)
    } else {
        seq![]
    };
    assert(next_events(w, a) == kills + caught + ending_events(tick, hs, zs));
    assert forall|i: int| 0 <= i < kills.len() implies {
        let e = #[trigger] next_events(w, a)[i];
        &&& e is ZombieKilled
        &&& e->score == kill_multiplier((i + 1) as nat) * 10 * w.humans.len() * w.humans.len()
    } by {
        assert(next_events(w, a)[i] == kills[i]);
        let m = kill_multiplier((i + 1) as nat);
        let h = w.humans.len();
        assert(m * (10 * h * h) == m * 10 * h * h) by (nonlinear_arith);
    }
    lemma_human_events_shape(w.humans, zs, tick);
    let ending = ending_events(tick, hs, zs);
    assert forall|i: int|
        kills.len() <= i < next_events(w, a).len() implies !(#[trigger] next_events(
        w,
        a,
    )[i] is ZombieKilled) by {
        if i < kills.len() + caught.len() {
            assert(next_events(w, a)[i] == caught[i - kills.len()]);
        } else {
            assert(next_events(w, a)[i] == ending[i - kills.len() - caught.len()]);
        }
    }
}

/// The player moves at most `MAX_ASH_STEP` along each axis, onto the grid,
/// and at most `MAX_ASH_STEP` in all when the target is in reach or lies up
/// and to the right of the player.
pub proof fn lemma_step_clamp(w: WorldView, a: Action)
    requires
        w.wf(),
        a.target.in_range(),
    ensures
        -MAX_ASH_STEP <= next_view(w, a).ash.x - w.ash.x <= MAX_ASH_STEP,
        -MAX_ASH_STEP <= next_view(w, a).ash.y - w.ash.y <= MAX_ASH_STEP,
        next_view(w, a).ash.in_range(),
        (w.ash.dist2(a.target) <= MAX_ASH_STEP * MAX_ASH_STEP || (a.target.x >= w.ash.x
            && a.target.y >= w.ash.y)) ==> w.ash.dist2(next_view(w, a).ash) <= MAX_ASH_STEP
            * MAX_ASH_STEP,
{
    lemma_step_toward_bounds(w.ash, a.target, MAX_ASH_STEP as int);
    if w.is_over() {
        assert(w.ash.dist2(w.ash) == 0);
    }
}

/// What one tick's kills score is at most `kill_bound(Z, H)`: the kill
/// multipliers of all `Z` zombies times the base score of the `H` humans.
pub proof fn lemma_tick_kill_bound(w: WorldView, a: Action)
    requires
        w.wf(),
    ensures
        0 <= kill_score_sum(next_events(w, a)) <= kill_bound(w.zombies.len(), w.humans.len()),
        kill_score_sum(next_events(w, a)) == kill_bound(
            (w.zombies.len() - next_view(w, a).zombies.len()) as nat,
            w.humans.len(),
        ),
{
    lemma_kill_bound_units(w.zombies.len(), w.humans.len());
    if w.is_over() {
        lemma_no_kills_in(next_events(w, a));
        assert(kill_bound(0, w.humans.len()) == 0);
        lemma_kill_bound_units(0, w.humans.len());
        assert(kill_bound_units(w.zombies.len()) * kill_base(w.humans.len()) >= 0) by (nonlinear_arith);
    } else {
        let tick = (w.tick + 1) as i32;
        let moved = moved_zombies(w.zombies);
        let p = moved_ash(w, a);
        let zs = zombies_after_kills(w, a);
        let hs = humans_after_tick(w, a);
        let base = kill_base(w.humans.len());
        assert(base <= 100000) by (nonlinear_arith)
            requires
                base == 10 * w.humans.len() * w.humans.len(),
                w.humans.len() <= 100,
        ;
        lemma_kill_events_shape(moved, p, tick, base);
        lemma_kill_events_len(moved, p, tick, base);
        lemma_human_events_shape(w.humans, zs, tick);
        let kills = kill_events(moved, p, tick, base);
        let caught = if zs.len() > 0 {
            human_events(w.humans, zs, tick)
        } else {
            seq![]
        };
        let ending = ending_events(tick, hs, zs);
        lemma_no_kills_in(caught);
        lemma_no_kills_in(ending);
        lemma_kill_score_sum_append(kills, caught);
        lemma_kill_score_sum_append(kills + caught, ending);
        lemma_kill_bound_units(kills.len(), w.humans.len());
        lemma_kill_bound_units_monotone(kills.len(), w.zombies.len());
        assert(kill_bound_units(kills.len()) * base <= kill_bound_units(w.zombies.len()) * base)
            by (nonlinear_arith)
            requires
                kill_bound_units(kills.len()) <= kill_bound_units(w.zombies.len()),
        ;
        assert(kill_bound_units(kills.len()) * base >= 0) by (nonlinear_arith);
        assert(base * kill_bound_units(kills.len()) == kill_bound_units(kills.len()) * base)
            by (nonlinear_arith);
    }
}

proof fn lemma_closest_target_in_range(from: V2, player: V2, hs: Seq<Human>)
    requires
        player.in_range(),
        forall|i: int| 0 <= i < hs.len() ==> (#[trigger] hs[i]).pos.in_range(),
    ensures
        closest_target(from, player, hs).in_range(),
    decreases hs.len(),
{
    if hs.len() > 0 {
        lemma_closest_target_in_range(from, player, hs.drop_last());
    }
}

/// A tick keeps a world well formed.
pub proof fn lemma_next_wf(w: WorldView, a: Action)
    requires
        w.wf(),
        a.target.in_range(),
    ensures
        next_view(w, a).wf(),
{
    if !w.is_over() {
        let moved = moved_zombies(w.zombies);
        let p = moved_ash(w, a);
        let zs = zombies_after_kills(w, a);
        let hs = humans_after_tick(w, a);
        lemma_step_toward_bounds(w.ash, a.target, MAX_ASH_STEP as int);
        assert(unique_zombie_ids(moved)) by {
            assert forall|i: int, j: int| 0 <= i < j < moved.len() implies moved[i].id != moved[j].id by {
                assert(moved[i].id == w.zombies[i].id && moved[j].id == w.zombies[j].id);
            }
        }
        lemma_surviving_zombies(moved, p);
        lemma_surviving_humans(w.humans, zs);
        assert forall|i: int| 0 <= i < zs.len() implies (#[trigger] zs[i]).pos.in_range() by {
            let j = choose|j: int| 0 <= j < moved.len() && zs[i] == moved[j];
            assert(moved[j].pos == w.zombies[j].next);
        }
        assert forall|i: int| 0 <= i < hs.len() implies (#[trigger] hs[i]).pos.in_range() by {
            if zs.len() > 0 {
                let j = choose|j: int| 0 <= j < w.humans.len() && hs[i] == w.humans[j];
            }
        }
        let r = retargeted(zs, p, hs);
        assert forall|i: int| 0 <= i < r.len() implies (#[trigger] r[i]).pos.in_range() && r[i].next.in_range() by {
            assert(zs[i].pos.in_range());
            lemma_closest_target_in_range(zs[i].pos, p, hs);
            lemma_step_toward_bounds(zs[i].pos, closest_target(zs[i].pos, p, hs), MAX_ZOMBIE_STEP as int);
        }
        assert(unique_zombie_ids(r)) by {
            assert forall|i: int, j: int| 0 <= i < j < r.len() implies r[i].id != r[j].id by {
                assert(r[i].id == zs[i].id && r[j].id == zs[j].id);
            }
        }
    }
}

/// What the kills of a sequence of ticks with the actions `acts` score.
pub open spec fn future_kill_score(w: WorldView, acts: Seq<Action>) -> int
    decreases acts.len(),
{
    if acts.len() == 0 {
        0
    } else {
        kill_score_sum(next_events(w, acts[0])) + future_kill_score(
            next_view(w, acts[0]),
            acts.subrange(1, acts.len() as int),
        )
    }
}

proof fn lemma_kill_bound_units_split(a: nat, b: nat)
    ensures
        kill_bound_units(a) + kill_bound_units(b) <= kill_bound_units(a + b),
    decreases b,
{
    if b > 0 {
        lemma_kill_bound_units_split(a, (b - 1) as nat);
        lemma_fib_monotone(b + 1, a + b + 1);
        assert((a + (b - 1) as nat) as nat == (a + b - 1) as nat);
    }
}

proof fn lemma_kill_bound_humans(z: nat, h1: nat, h2: nat)
    requires
        h1 <= h2,
    ensures
        kill_bound(z, h1) <= kill_bound(z, h2),
{
    lemma_kill_bound_units(z, h1);
    lemma_kill_bound_units(z, h2);
    assert(kill_base(h1) <= kill_base(h2)) by (nonlinear_arith)
        requires
            h1 <= h2,
    ;
    assert(kill_bound_units(z) * kill_base(h1) <= kill_bound_units(z) * kill_base(h2))
        by (nonlinear_arith)
        requires
            kill_base(h1) <= kill_base(h2),
    ;
}

/// Whatever the player does, the kills of every future of a world with `H`
/// humans and `Z` zombies score at most `kill_bound(Z, H)`.
pub proof fn lemma_upper_bound(w: WorldView, acts: Seq<Action>)
    requires
        w.wf(),
        forall|i: int| 0 <= i < acts.len() ==> (#[trigger] acts[i]).target.in_range(),
    ensures
        0 <= future_kill_score(w, acts) <= kill_bound(w.zombies.len(), w.humans.len()),
    decreases acts.len(),
{
    lemma_kill_bound_units(w.zombies.len(), w.humans.len());
    assert(kill_bound_units(w.zombies.len()) * kill_base(w.humans.len()) >= 0) by (nonlinear_arith);
    if acts.len() > 0 {
        let a = acts[0];
        let rest = acts.subrange(1, acts.len() as int);
        let w2 = next_view(w, a);
        lemma_tick_kill_bound(w, a);
        lemma_next_wf(w, a);
        lemma_population_monotone(w, a);
        assert forall|i: int| 0 <= i < rest.len() implies (#[trigger] rest[i]).target.in_range() by {
            assert(rest[i] == acts[i + 1]);
        }
        lemma_upper_bound(w2, rest);
        let z = w.zombies.len();
        let h = w.humans.len();
        let z2 = w2.zombies.len();
        let h2 = w2.humans.len();
        let k = (z - z2) as nat;
        lemma_kill_bound_humans(z2, h2, h);
        lemma_kill_bound_units_split(k, z2);
        assert(k + z2 == z);
        lemma_kill_bound_units(k, h);
        lemma_kill_bound_units(z2, h);
        assert(kill_bound_units(k) * kill_base(h) + kill_bound_units(z2) * kill_base(h)
            <= kill_bound_units(z) * kill_base(h)) by (nonlinear_arith)
            requires
                kill_bound_units(k) + kill_bound_units(z2) <= kill_bound_units(z),
                kill_base(h) >= 0,
        ;
    }
}

} // verus!
