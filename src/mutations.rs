//! Random edits of a strategy's plan.
use vstd::prelude::*;
use rand::rngs::ThreadRng;
use crate::geometry::{V2, COORD_LIMIT};
use crate::model::{Milestone, Strategy, World, WorldView, MAP_HEIGHT, MAP_WIDTH, MAX_ASH_KILL_RANGE,
    MAX_ASH_STEP};
use crate::random::{random_below, random_index, random_ratio};
use crate::rollouts::milestones_in_range;

verus! {

/// How far `bump_move` may shift a point along each axis: enough to step
/// out of the kill range.
pub const MUTATE_RADIUS: i64 = MAX_ASH_STEP + MAX_ASH_KILL_RANGE + 1;

/// The point is one that a draw on the map gives: `0 <= x < MAP_WIDTH`,
/// `0 <= y < MAP_HEIGHT`.
pub open spec fn in_map(p: V2) -> bool {
    0 <= p.x < MAP_WIDTH && 0 <= p.y < MAP_HEIGHT
}

/// A plan that the mutations take and keep: every point on the grid.
pub open spec fn plan_wf(ms: Seq<Milestone>) -> bool {
    milestones_in_range(ms)
}

/// The number of `MoveTo` milestones of `s`.
pub open spec fn count_moves(s: Seq<Milestone>) -> nat
    decreases s.len(),
{
    if s.len() == 0 {
        0
    } else {
        count_moves(s.drop_last()) + if s.last() is MoveTo {
            1nat
        } else {
            0nat
        }
    }
}

proof fn lemma_count_moves(s: Seq<Milestone>)
    ensures
        count_moves(s) > 0 <==> has_move(s),
        count_moves(s) <= s.len(),
    decreases s.len(),
{
    if s.len() > 0 {
        lemma_count_moves(s.drop_last());
        if has_move(s.drop_last()) {
            let i = choose|i: int| 0 <= i < s.drop_last().len() && s.drop_last()[i] is MoveTo;
            assert(s[i] is MoveTo);
        }
        if has_move(s) && !(s.last() is MoveTo) {
            let i = choose|i: int| 0 <= i < s.len() && s[i] is MoveTo;
            assert(s.drop_last()[i] is MoveTo);
        }
    }
}

pub open spec fn clamped(v: int, lo: int, hi: int) -> int {
    if v < lo {
        lo
    } else if v > hi {
        hi
    } else {
        v
    }
}

pub open spec fn has_move(ms: Seq<Milestone>) -> bool {
    exists|i: int| 0 <= i < ms.len() && ms[i] is MoveTo
}

/// Some plan milestone already pursues zombie `id`.
pub open spec fn targets_zombie(ms: Seq<Milestone>, id: i32) -> bool {
    exists|i: int| 0 <= i < ms.len() && ms[i] == (Milestone::KillZombie { zombie_id: id })
}

/// `a` is `b` with some elements left out, in order.
pub open spec fn is_subsequence(a: Seq<Milestone>, b: Seq<Milestone>) -> bool {
    exists|f: Seq<int>| is_index_map(f, a, b)
}

/// `f` maps each position of `a` to a position of `b` holding the same
/// milestone, in increasing order.
pub open spec fn is_index_map(f: Seq<int>, a: Seq<Milestone>, b: Seq<Milestone>) -> bool {
    &&& f.len() == a.len()
    &&& forall|i: int| 0 <= i < f.len() ==> 0 <= #[trigger] f[i] < b.len() && a[i] == b[f[i]]
    &&& forall|i: int, j: int| 0 <= i < j < f.len() ==> f[i] < f[j]
}

/// The plan with the `MoveTo` at `i` shifted by `(dx, dy)` and clamped to
/// the map.
pub open spec fn bumped(old: Seq<Milestone>, i: int, dx: int, dy: int) -> Seq<Milestone> {
    old.update(
        i,
        Milestone::MoveTo {
            target: V2 {
                x: clamped(old[i]->target.x + dx, 0, MAP_WIDTH as int) as i64,
                y: clamped(old[i]->target.y + dy, 0, MAP_HEIGHT as int) as i64,
            },
        },
    )
}

/// One `MoveTo` moved by at most `MUTATE_RADIUS` per axis, clamped to the map.
pub open spec fn is_bump(old: Seq<Milestone>, new: Seq<Milestone>) -> bool {
    exists|i: int, dx: int, dy: int|
        0 <= i < old.len() && old[i] is MoveTo && -MUTATE_RADIUS <= dx < MUTATE_RADIUS
            && -MUTATE_RADIUS <= dy < MUTATE_RADIUS && new == #[trigger] bumped(old, i, dx, dy)
}

/// Some milestones dropped, and a `MoveTo` to a point of the map inserted.
pub open spec fn is_replace(old: Seq<Milestone>, new: Seq<Milestone>) -> bool {
    exists|kept: Seq<Milestone>, i: int, t: V2|
        is_subsequence(kept, old) && 0 <= i <= kept.len() && in_map(t) && new == #[trigger] kept.insert(
            i,
            Milestone::MoveTo { target: t },
        )
}

pub open spec fn is_drop(old: Seq<Milestone>, new: Seq<Milestone>) -> bool {
    exists|i: int| 0 <= i < old.len() && new == #[trigger] old.remove(i)
}

/// A `KillZombie` of a zombie of `w` that the plan did not pursue yet.
pub open spec fn is_insert_attack(old: Seq<Milestone>, new: Seq<Milestone>, w: WorldView) -> bool {
    exists|i: int, id: i32|
        0 <= i <= old.len() && w.has_zombie(id) && !targets_zombie(old, id) && new
            == #[trigger] old.insert(i, Milestone::KillZombie { zombie_id: id })
}

/// A `MoveTo` onto a human of `w`.
pub open spec fn is_insert_defend(old: Seq<Milestone>, new: Seq<Milestone>, w: WorldView) -> bool {
    exists|i: int, j: int|
        0 <= i <= old.len() && 0 <= j < w.humans.len() && new == #[trigger] old.insert(
            i,
            Milestone::MoveTo { target: w.humans[j].pos },
        )
}

pub open spec fn swapped(s: Seq<Milestone>, i: int, j: int) -> Seq<Milestone> {
    s.update(i, s[j]).update(j, s[i])
}

pub open spec fn bubbled(s: Seq<Milestone>, i: int) -> Seq<Milestone> {
    swapped(s, i, i + 1)
}

pub open spec fn is_bubble(old: Seq<Milestone>, new: Seq<Milestone>) -> bool {
    exists|i: int| 0 <= i && i + 1 < old.len() && new == #[trigger] bubbled(old, i)
}

pub open spec fn is_swap(old: Seq<Milestone>, new: Seq<Milestone>) -> bool {
    exists|i: int, j: int| 0 <= i < old.len() && 0 <= j < old.len() && i != j && new == #[trigger] swapped(old, i, j)
}

/// `s` with the section `[from, from + len)` taken out and put back at `to`
/// of what is left, reversed or not.
pub open spec fn displaced(s: Seq<Milestone>, from: int, len: int, to: int, reverse: bool) -> Seq<
    Milestone,
> {
    let section = s.subrange(from, from + len);
    let rest = s.subrange(0, from) + s.subrange(from + len, s.len() as int);
    let moved = if reverse {
        section.reverse()
    } else {
        section
    };
    rest.subrange(0, to) + moved + rest.subrange(to, rest.len() as int)
}

/// The longest section that `displace_section` moves in `w`:
/// `max(1, min(|zombies|, 10))`.
pub open spec fn displace_limit(w: WorldView) -> int {
    if w.zombies.len() == 0 {
        1
    } else if w.zombies.len() < 10 {
        w.zombies.len() as int
    } else {
        10
    }
}

pub open spec fn is_displace(old: Seq<Milestone>, new: Seq<Milestone>, limit: int) -> bool {
    exists|from: int, len: int, to: int, reverse: bool|
        0 <= from && 1 <= len <= limit && from + len <= old.len() && 0 <= to <= old.len() - len && new
            == #[trigger] displaced(old, from, len, to, reverse)
}

/// Mutation `k` of the library, in the order they are tried, turns `old`
/// into `new`.
pub open spec fn is_kind(k: int, old: Seq<Milestone>, new: Seq<Milestone>, w: WorldView) -> bool {
    if k == 0 {
        is_bump(old, new)
    } else if k == 1 {
        is_replace(old, new)
    } else if k == 2 {
        is_drop(old, new)
    } else if k == 3 {
        is_insert_attack(old, new, w)
    } else if k == 4 {
        is_insert_defend(old, new, w)
    } else if k == 5 {
        is_bubble(old, new)
    } else if k == 6 {
        is_swap(old, new)
    } else {
        is_displace(old, new, displace_limit(w))
    }
}

/// Mutation `k` can change the plan `ms` in `w`.
pub open spec fn applies(k: int, ms: Seq<Milestone>, w: WorldView) -> bool {
    if k == 0 {
        has_move(ms)
    } else if k == 1 {
        true
    } else if k == 2 {
        ms.len() > 0
    } else if k == 3 {
        exists|i: int| 0 <= i < w.zombies.len() && !targets_zombie(ms, #[trigger] w.zombies[i].id)
    } else if k == 4 {
        w.humans.len() > 0
    } else {
        ms.len() >= 2
    }
}

/// Mutation `k` is tried and can change the plan.
pub open spec fn fires(trials: Seq<bool>, k: int, ms: Seq<Milestone>, w: WorldView) -> bool {
    trials[k] && applies(k, ms, w)
}

/// One of the mutations of the library turns `old` into `new`.
pub open spec fn is_mutation(old: Seq<Milestone>, new: Seq<Milestone>, w: WorldView) -> bool {
    exists|k: int| 0 <= k < 8 && #[trigger] is_kind(k, old, new, w)
}

/// Whether a plan is one that the mutations and the search take.
pub fn plan_is_valid(strategy: &Strategy) -> (r: bool)
    ensures
        r == plan_wf(strategy.milestones@),
{
    let mut i: usize = 0;
    while i < strategy.milestones.len()
        invariant
            i <= strategy.milestones@.len(),
            forall|j: int| 0 <= j < i ==> crate::milestones::milestone_in_range(
                #[trigger] strategy.milestones@[j],
            ),
        decreases strategy.milestones@.len() - i,
    {
        match strategy.milestones[i] {
            Milestone::MoveTo { target } => {
                if target.x < -COORD_LIMIT || target.x > COORD_LIMIT || target.y < -COORD_LIMIT
                    || target.y > COORD_LIMIT {
                    return false;
                }
            },
            _ => {},
        }
        i += 1;
    }
    true
}

/// `v` moved into `[min_value, max_value]`.
pub fn clamp(v: i64, min_value: i64, max_value: i64) -> (r: i64)
    requires
        min_value <= max_value,
    ensures
        r == clamped(v as int, min_value as int, max_value as int),
{
    if v < min_value {
        min_value
    } else if v > max_value {
        max_value
    } else {
        v
    }
}

/// Tries the mutations in order, those whose trial is `true`, and stops at
/// the first that changes the plan: that is the first `k` for which
/// `trials[k]` holds and mutation `k` applies. `false` when there is none.
pub fn mutate_with(
    strategy: &mut Strategy,
    world: &World,
    trials: [bool; 8],
    rng: &mut ThreadRng,
) -> (r: bool)
    requires
        plan_wf(old(strategy).milestones@),
        world@.wf(),
    ensures
        final(strategy).id == old(strategy).id,
        plan_wf(final(strategy).milestones@),
        r == exists|k: int| 0 <= k < 8 && #[trigger] fires(trials@, k, old(strategy).milestones@, world@),
        forall|k: int|
            0 <= k < 8 && #[trigger] fires(trials@, k, old(strategy).milestones@, world@) && (forall|
                j: int,
            | 0 <= j < k ==> !fires(trials@, j, old(strategy).milestones@, world@)) ==> is_kind(
                k,
                old(strategy).milestones@,
                final(strategy).milestones@,
                world@,
            ),
        !r ==> final(strategy).milestones@ == old(strategy).milestones@,
{
    let ghost ms = strategy.milestones@;
    let ghost w = world@;
    let ghost t = trials@;
    let mut mutated = false;
    let ghost mut chosen: int = 8;
    if trials[0] {
        mutated = bump_move(strategy, rng);
        proof { if mutated { chosen = 0; } }
    }
    if !mutated && trials[1] {
        mutated = replace_move(strategy, rng);
        proof { chosen = 1; }
    }
    if !mutated && trials[2] {
        mutated = drop_element(strategy, rng);
        proof { if mutated { chosen = 2; } }
    }
    if !mutated && trials[3] {
        mutated = insert_attack(world, strategy, rng);
        proof { if mutated { chosen = 3; } }
    }
    if !mutated && trials[4] {
        mutated = insert_defend(world, strategy, rng);
        proof { if mutated { chosen = 4; } }
    }
    if !mutated && trials[5] {
        mutated = bubble_elements(strategy, rng);
        proof { if mutated { chosen = 5; } }
    }
    if !mutated && trials[6] {
        mutated = swap_elements(strategy, rng);
        proof { if mutated { chosen = 6; } }
    }
    if !mutated && trials[7] {
        mutated = displace_section(world, strategy, rng);
        proof { if mutated { chosen = 7; } }
    }
    proof {
        assert(t.len() == 8);
        if mutated {
            assert(0 <= chosen < 8);
            assert(fires(t, chosen, ms, w));
            assert(is_kind(chosen, ms, strategy.milestones@, w));
            assert(forall|j: int| 0 <= j < chosen ==> !fires(t, j, ms, w));
            assert forall|k: int|
                0 <= k < 8 && #[trigger] fires(t, k, ms, w) && (forall|j: int|
                    0 <= j < k ==> !fires(t, j, ms, w)) implies is_kind(k, ms, strategy.milestones@, w) by {
                if k < chosen {
                } else if k > chosen {
                    assert(!fires(t, chosen, ms, w));
                }
            }
        } else {
            assert forall|k: int| 0 <= k < 8 implies !#[trigger] fires(t, k, ms, w) by {
            }
        }
    }
    mutated
}

/// Draws each mutation's trial with its own chance, then tries them in
/// order (see `mutate_with`).
pub fn mutate_strategy(strategy: &mut Strategy, world: &World, rng: &mut ThreadRng) -> (r: bool)
    requires
        plan_wf(old(strategy).milestones@),
        world@.wf(),
    ensures
        final(strategy).id == old(strategy).id,
        plan_wf(final(strategy).milestones@),
        r ==> is_mutation(old(strategy).milestones@, final(strategy).milestones@, world@),
        !r ==> final(strategy).milestones@ == old(strategy).milestones@,
{
    let ghost ms = strategy.milestones@;
    let bump = random_ratio(rng, 25, 100);
    let replace = random_ratio(rng, 1, 2);
    let drop = random_ratio(rng, 5, 100);
    let attack = random_ratio(rng, 1, 10);
    let defend = random_ratio(rng, 1, 10);
    let bubble = random_ratio(rng, 1, 10);
    let swap = random_ratio(rng, 5, 100);
    let displace = random_ratio(rng, 1, 2);
    let trials = [bump, replace, drop, attack, defend, bubble, swap, displace];
    let r = mutate_with(strategy, world, trials, rng);
    proof {
        if r {
            let t = trials@;
            let w = world@;
            let k = choose|k: int| 0 <= k < 8 && #[trigger] fires(t, k, ms, w);
            lemma_first_firing(t, ms, w, k);
            let f = choose|f: int| 0 <= f <= k && #[trigger] fires(t, f, ms, w) && (forall|j: int|
                0 <= j < f ==> !fires(t, j, ms, w));
            assert(is_kind(f, ms, strategy.milestones@, w));
        }
    }
    r
}

/// Among the trials that fire, there is a first.
proof fn lemma_first_firing(t: Seq<bool>, ms: Seq<Milestone>, w: WorldView, k: int)
    requires
        0 <= k,
        fires(t, k, ms, w),
    ensures
        exists|f: int|
            0 <= f <= k && #[trigger] fires(t, f, ms, w) && (forall|j: int|
                0 <= j < f ==> !fires(t, j, ms, w)),
    decreases k,
{
    if exists|j: int| 0 <= j < k && fires(t, j, ms, w) {
        let j = choose|j: int| 0 <= j < k && fires(t, j, ms, w);
        lemma_first_firing(t, ms, w, j);
    } else {
        assert(forall|j: int| 0 <= j < k ==> !fires(t, j, ms, w));
    }
}

/// The number of `MoveTo` milestones of the plan.
fn count_move_milestones(milestones: &Vec<Milestone>) -> (r: usize)
    ensures
        r == count_moves(milestones@),
{
    let mut n: usize = 0;
    let mut i: usize = 0;
    while i < milestones.len()
        invariant
            i <= milestones@.len(),
            n == count_moves(milestones@.subrange(0, i as int)),
            n <= i,
        decreases milestones@.len() - i,
    {
        assert(milestones@.subrange(0, i as int + 1).drop_last() =~= milestones@.subrange(0, i as int));
        if milestones[i].is_move() {
            n += 1;
        }
        i += 1;
    }
    assert(milestones@.subrange(0, i as int) =~= milestones@);
    n
}

/// The index of the `MoveTo` that has exactly `ordinal` others before it;
/// `None` when the plan has no more than `ordinal` of them.
pub fn nth_move_index(milestones: &Vec<Milestone>, ordinal: usize) -> (r: Option<usize>)
    ensures
        match r {
            Some(i) => i < milestones@.len() && milestones@[i as int] is MoveTo && count_moves(
                milestones@.subrange(0, i as int),
            ) == ordinal,
            None => ordinal >= count_moves(milestones@),
        },
{
    let mut current: usize = 0;
    let mut i: usize = 0;
    while i < milestones.len()
        invariant
            i <= milestones@.len(),
            current == count_moves(milestones@.subrange(0, i as int)),
            current <= ordinal,
        decreases milestones@.len() - i,
    {
        assert(milestones@.subrange(0, i as int + 1).drop_last() =~= milestones@.subrange(0, i as int));
        if milestones[i].is_move() {
            if current == ordinal {
                return Some(i);
            }
            current += 1;
        }
        i += 1;
    }
    assert(milestones@.subrange(0, i as int) =~= milestones@);
    None
}

/// Shifts the `MoveTo` that has exactly `ordinal` others before it by
/// `(dx, dy)`, clamped to the map; returns its index.
pub fn bump_at(milestones: &mut Vec<Milestone>, ordinal: usize, dx: i64, dy: i64) -> (k: usize)
    requires
        ordinal < count_moves(old(milestones)@),
        plan_wf(old(milestones)@),
        -MUTATE_RADIUS <= dx <= MUTATE_RADIUS,
        -MUTATE_RADIUS <= dy <= MUTATE_RADIUS,
    ensures
        k < old(milestones)@.len(),
        old(milestones)@[k as int] is MoveTo,
        count_moves(old(milestones)@.subrange(0, k as int)) == ordinal,
        final(milestones)@ == bumped(old(milestones)@, k as int, dx as int, dy as int),
        plan_wf(final(milestones)@),
{
    let ghost old_ms = milestones@;
    let k = match nth_move_index(milestones, ordinal) {
        Some(k) => k,
        None => {
            assert(false);
            0
        },
    };
    match milestones[k] {
        Milestone::MoveTo { target: previous } => {
            assert(old_ms[k as int] is MoveTo ==> crate::milestones::milestone_in_range(old_ms[k as int]));
            let target = V2 {
                x: clamp(previous.x + dx, 0, MAP_WIDTH),
                y: clamp(previous.y + dy, 0, MAP_HEIGHT),
            };
            milestones.set(k, Milestone::MoveTo { target });
            proof {
                assert(old_ms[k as int]->target == previous);
                assert(milestones@ =~= bumped(old_ms, k as int, dx as int, dy as int));
                assert forall|i: int| 0 <= i < milestones@.len() implies
                    crate::milestones::milestone_in_range(#[trigger] milestones@[i]) by {
                    if i != k as int {
                        assert(milestones@[i] == old_ms[i]);
                    }
                }
            }
        },
        _ => {
            assert(false);
        },
    }
    k
}

/// Shifts a random `MoveTo` by a random offset, clamped to the map.
fn bump_move(strategy: &mut Strategy, rng: &mut ThreadRng) -> (r: bool)
    requires
        plan_wf(old(strategy).milestones@),
    ensures
        final(strategy).id == old(strategy).id,
        plan_wf(final(strategy).milestones@),
        r == has_move(old(strategy).milestones@),
        r ==> is_bump(old(strategy).milestones@, final(strategy).milestones@),
        !r ==> final(strategy).milestones@ == old(strategy).milestones@,
{
    let ghost old_ms = strategy.milestones@;
    proof {
        lemma_count_moves(old_ms);
    }
    let num_moves = count_move_milestones(&strategy.milestones);
    if num_moves == 0 {
        return false;
    }
    let ordinal = random_index(rng, num_moves);
    let dx = random_below(rng, 2 * MUTATE_RADIUS as u64) as i64 - MUTATE_RADIUS;
    let dy = random_below(rng, 2 * MUTATE_RADIUS as u64) as i64 - MUTATE_RADIUS;
    let k = bump_at(&mut strategy.milestones, ordinal, dx, dy);
    assert(strategy.milestones@ == bumped(old_ms, k as int, dx as int, dy as int));
    true
}

/// Puts `m` at a random place of the plan, the end included; returns the
/// place.
fn insert_at_random(milestones: &mut Vec<Milestone>, m: Milestone, rng: &mut ThreadRng) -> (pos: usize)
    ensures
        pos <= old(milestones)@.len(),
        final(milestones)@ == old(milestones)@.insert(pos as int, m),
{
    let ghost old_ms = milestones@;
    milestones.push(m);
    let pos = random_index(rng, milestones.len());
    let _ = milestones.pop();
    assert(milestones@ =~= old_ms);
    milestones.insert(pos, m);
    pos
}

/// Drops each milestone with chance 1/10, then inserts a `MoveTo` to a
/// random point of the map at a random place.
fn replace_move(strategy: &mut Strategy, rng: &mut ThreadRng) -> (r: bool)
    requires
        plan_wf(old(strategy).milestones@),
    ensures
        final(strategy).id == old(strategy).id,
        plan_wf(final(strategy).milestones@),
        r,
        is_replace(old(strategy).milestones@, final(strategy).milestones@),
{
    let ghost old_ms = strategy.milestones@;
    let mut kept: Vec<Milestone> = Vec::new();
    let ghost mut f: Seq<int> = Seq::empty();
    let mut i: usize = 0;
    while i < strategy.milestones.len()
        invariant
            i <= old_ms.len(),
            strategy.milestones@ == old_ms,
            f.len() == kept@.len(),
            kept@.len() <= i,
            forall|j: int| 0 <= j < f.len() ==> 0 <= #[trigger] f[j] < i && kept@[j] == old_ms[f[j]],
            forall|a: int, b: int| 0 <= a < b < f.len() ==> f[a] < f[b],
        decreases old_ms.len() - i,
    {
        if random_ratio(rng, 9, 10) {
            kept.push(strategy.milestones[i]);
            proof {
                f = f.push(i as int);
            }
        }
        i += 1;
    }
    let x = random_below(rng, MAP_WIDTH as u64) as i64;
    let y = random_below(rng, MAP_HEIGHT as u64) as i64;
    let target = V2 { x, y };
    let ghost kept_before = kept@;
    let insert_index = insert_at_random(&mut kept, Milestone::MoveTo { target }, rng);
    strategy.milestones = kept;
    proof {
        let k = strategy.milestones@.remove(insert_index as int);
        assert(k.insert(insert_index as int, Milestone::MoveTo { target }) =~= strategy.milestones@);
        assert(k =~= kept_before);
        assert(is_index_map(f, k, old_ms));
        assert(is_replace(old_ms, strategy.milestones@));
        assert forall|j: int| 0 <= j < strategy.milestones@.len() implies
            crate::milestones::milestone_in_range(#[trigger] strategy.milestones@[j]) by {
            if j < insert_index {
                assert(strategy.milestones@[j] == k[j]);
                assert(k[j] == old_ms[f[j]]);
            } else if j > insert_index {
                assert(strategy.milestones@[j] == k[j - 1]);
                assert(k[j - 1] == old_ms[f[j - 1]]);
            }
        }
    }
    true
}

/// Removes a random milestone.
fn drop_element(strategy: &mut Strategy, rng: &mut ThreadRng) -> (r: bool)
    requires
        plan_wf(old(strategy).milestones@),
    ensures
        final(strategy).id == old(strategy).id,
        plan_wf(final(strategy).milestones@),
        r == (old(strategy).milestones@.len() > 0),
        r ==> is_drop(old(strategy).milestones@, final(strategy).milestones@),
        !r ==> final(strategy).milestones@ == old(strategy).milestones@,
{
    if strategy.milestones.len() == 0 {
        return false;
    }
    let ghost old_ms = strategy.milestones@;
    let drop_index = random_index(rng, strategy.milestones.len());
    strategy.milestones.remove(drop_index);
    proof {
        assert(strategy.milestones@ == old_ms.remove(drop_index as int));
        assert forall|j: int| 0 <= j < strategy.milestones@.len() implies
            crate::milestones::milestone_in_range(#[trigger] strategy.milestones@[j]) by {
            if j < drop_index {
                assert(strategy.milestones@[j] == old_ms[j]);
            } else {
                assert(strategy.milestones@[j] == old_ms[j + 1]);
            }
        }
    }
    true
}

/// Whether the plan already pursues zombie `id`.
fn plan_targets_zombie(milestones: &Vec<Milestone>, id: i32) -> (r: bool)
    ensures
        r == targets_zombie(milestones@, id),
{
    let mut i: usize = 0;
    while i < milestones.len()
        invariant
            i <= milestones@.len(),
            forall|j: int| 0 <= j < i ==> milestones@[j] != (Milestone::KillZombie { zombie_id: id }),
        decreases milestones@.len() - i,
    {
        if milestones[i] == (Milestone::KillZombie { zombie_id: id }) {
            return true;
        }
        i += 1;
    }
    false
}

/// Inserts, at a random place, a `KillZombie` of a random zombie that the
/// plan does not pursue yet.
fn insert_attack(world: &World, strategy: &mut Strategy, rng: &mut ThreadRng) -> (r: bool)
    requires
        plan_wf(old(strategy).milestones@),
        world@.wf(),
    ensures
        final(strategy).id == old(strategy).id,
        plan_wf(final(strategy).milestones@),
        r == (exists|i: int|
            0 <= i < world@.zombies.len() && !targets_zombie(
                old(strategy).milestones@,
                #[trigger] world@.zombies[i].id,
            )),
        r ==> is_insert_attack(old(strategy).milestones@, final(strategy).milestones@, world@),
        !r ==> final(strategy).milestones@ == old(strategy).milestones@,
{
    let ghost old_ms = strategy.milestones@;
    if world.zombies.len() == 0 {
        return false;
    }
    let mut zombie_ids: Vec<i32> = Vec::new();
    let mut i: usize = 0;
    while i < world.zombies.len()
        invariant
            i <= world@.zombies.len(),
            strategy.milestones@ == old_ms,
            forall|j: int| 0 <= j < zombie_ids@.len() ==> world@.has_zombie(#[trigger] zombie_ids@[j])
                && !targets_zombie(old_ms, zombie_ids@[j]),
            zombie_ids@.len() == 0 ==> forall|j: int| 0 <= j < i ==> targets_zombie(
                old_ms,
                #[trigger] world@.zombies[j].id,
            ),
        decreases world@.zombies.len() - i,
    {
        let id = world.zombies[i].id;
        if !plan_targets_zombie(&strategy.milestones, id) {
            zombie_ids.push(id);
        }
        i += 1;
    }
    if zombie_ids.len() == 0 {
        return false;
    }
    let zombie_id = zombie_ids[random_index(rng, zombie_ids.len())];
    let insert_index = insert_at_random(
        &mut strategy.milestones,
        Milestone::KillZombie { zombie_id },
        rng,
    );
    proof {
        assert forall|j: int| 0 <= j < strategy.milestones@.len() implies
            crate::milestones::milestone_in_range(#[trigger] strategy.milestones@[j]) by {
            if j < insert_index {
                assert(strategy.milestones@[j] == old_ms[j]);
            } else if j > insert_index {
                assert(strategy.milestones@[j] == old_ms[j - 1]);
            }
        }
        let w = world@;
        assert(strategy.milestones@ == old_ms.insert(
            insert_index as int,
            Milestone::KillZombie { zombie_id },
        ));
    }
    true
}

/// Inserts, at a random place, a `MoveTo` onto a random human.
fn insert_defend(world: &World, strategy: &mut Strategy, rng: &mut ThreadRng) -> (r: bool)
    requires
        plan_wf(old(strategy).milestones@),
        world@.wf(),
    ensures
        final(strategy).id == old(strategy).id,
        plan_wf(final(strategy).milestones@),
        r == (world@.humans.len() > 0),
        r ==> is_insert_defend(old(strategy).milestones@, final(strategy).milestones@, world@),
        !r ==> final(strategy).milestones@ == old(strategy).milestones@,
{
    let ghost old_ms = strategy.milestones@;
    if world.humans.len() == 0 {
        return false;
    }
    let human_index = random_index(rng, world.humans.len());
    let human = world.humans[human_index];
    let insert_index = insert_at_random(
        &mut strategy.milestones,
        Milestone::MoveTo { target: human.pos },
        rng,
    );
    proof {
        assert(world@.humans[human_index as int].pos.in_range());
        assert(strategy.milestones@ == old_ms.insert(
            insert_index as int,
            Milestone::MoveTo { target: world@.humans[human_index as int].pos },
        ));
        assert forall|j: int| 0 <= j < strategy.milestones@.len() implies
            crate::milestones::milestone_in_range(#[trigger] strategy.milestones@[j]) by {
            if j < insert_index {
                assert(strategy.milestones@[j] == old_ms[j]);
            } else if j > insert_index {
                assert(strategy.milestones@[j] == old_ms[j - 1]);
            }
        }
    }
    true
}

/// Exchanges the milestones at `i` and `j`.
fn swap_milestones(milestones: &mut Vec<Milestone>, i: usize, j: usize)
    requires
        i < old(milestones)@.len(),
        j < old(milestones)@.len(),
    ensures
        final(milestones)@ == swapped(old(milestones)@, i as int, j as int),
{
    let a = milestones[i];
    let b = milestones[j];
    milestones.set(i, b);
    milestones.set(j, a);
}

proof fn lemma_swapped_in_range(s: Seq<Milestone>, i: int, j: int)
    requires
        plan_wf(s),
        0 <= i < s.len(),
        0 <= j < s.len(),
    ensures
        plan_wf(swapped(s, i, j)),
{
    let t = swapped(s, i, j);
    assert forall|k: int| 0 <= k < t.len() implies crate::milestones::milestone_in_range(#[trigger] t[k]) by {
        if k == j {
        } else if k == i {
        } else {
            assert(t[k] == s[k]);
        }
    }
}

/// Swaps two neighbouring milestones.
fn bubble_elements(strategy: &mut Strategy, rng: &mut ThreadRng) -> (r: bool)
    requires
        plan_wf(old(strategy).milestones@),
    ensures
        final(strategy).id == old(strategy).id,
        plan_wf(final(strategy).milestones@),
        r == (old(strategy).milestones@.len() >= 2),
        r ==> is_bubble(old(strategy).milestones@, final(strategy).milestones@),
        !r ==> final(strategy).milestones@ == old(strategy).milestones@,
{
    if strategy.milestones.len() < 2 {
        return false;
    }
    let ghost old_ms = strategy.milestones@;
    let bubble_index = random_index(rng, strategy.milestones.len() - 1);
    swap_milestones(&mut strategy.milestones, bubble_index, bubble_index + 1);
    proof {
        lemma_swapped_in_range(old_ms, bubble_index as int, bubble_index + 1);
        assert(strategy.milestones@ == bubbled(old_ms, bubble_index as int));
    }
    true
}

/// Swaps two distinct milestones.
fn swap_elements(strategy: &mut Strategy, rng: &mut ThreadRng) -> (r: bool)
    requires
        plan_wf(old(strategy).milestones@),
    ensures
        final(strategy).id == old(strategy).id,
        plan_wf(final(strategy).milestones@),
        r == (old(strategy).milestones@.len() >= 2),
        r ==> is_swap(old(strategy).milestones@, final(strategy).milestones@),
        !r ==> final(strategy).milestones@ == old(strategy).milestones@,
{
    if strategy.milestones.len() < 2 {
        return false;
    }
    let ghost old_ms = strategy.milestones@;
    let from_index = random_index(rng, strategy.milestones.len() - 1);
    let mut to_index = random_index(rng, strategy.milestones.len() - 1);
    if from_index == to_index {
        to_index += 1;
    }
    swap_milestones(&mut strategy.milestones, from_index, to_index);
    proof {
        lemma_swapped_in_range(old_ms, from_index as int, to_index as int);
    }
    true
}

/// Draws a section length: `start + floor(u^power * max_length)` for `u`
/// uniform in `[0, 1)` (in thousandths), at most `end - 1`.
pub struct RangeRandom {
    pub max_length: usize,
    pub power: u32,
}

impl RangeRandom {
    pub fn gen(&self, range: std::ops::Range<usize>, rng: &mut ThreadRng) -> (r: usize)
        requires
            range.start < range.end,
            self.max_length <= 10,
            self.power <= 4,
        ensures
            range.start <= r < range.end,
            r <= range.start + self.max_length,
            self.power >= 1 && self.max_length >= 1 ==> r < range.start + self.max_length,
            self.max_length == 0 ==> r == range.start,
    {
        let u = random_below(rng, 1000);
        let mut num: u64 = 1;
        let mut den: u64 = 1;
        let mut k: u32 = 0;
        while k < self.power
            invariant
                k <= self.power <= 4,
                u < 1000,
                num <= den,
                k >= 1 ==> num < den,
                den <= 1_000_000_000_000,
                den == pow1000(k as nat),
                1 <= den,
            decreases self.power - k,
        {
            assert(num * u <= den * 1000) by (nonlinear_arith)
                requires
                    num <= den,
                    u < 1000,
            ;
            assert(num * u <= den * u) by (nonlinear_arith)
                requires
                    num <= den,
            ;
            assert(den * u < den * 1000) by (nonlinear_arith)
                requires
                    u < 1000,
                    den >= 1,
            ;
            proof {
                lemma_pow1000_bound(k as nat, self.power as nat);
            }
            num = num * u;
            den = den * 1000;
            k += 1;
        }
        assert(num * (self.max_length as u64) <= den * 10) by (nonlinear_arith)
            requires
                num <= den,
                self.max_length <= 10,
        ;
        let q = num * (self.max_length as u64) / den;
        assert(q <= self.max_length) by (nonlinear_arith)
            requires
                q == (num * self.max_length) as int / den as int,
                num <= den,
                den >= 1,
        ;
        assert(k >= 1 && self.max_length >= 1 ==> q < self.max_length) by (nonlinear_arith)
            requires
                q == (num * self.max_length) as int / den as int,
                k >= 1 ==> num < den,
                den >= 1,
        ;
        assert(self.max_length == 0 ==> q == 0) by (nonlinear_arith)
            requires
                q == (num * self.max_length) as int / den as int,
                den >= 1,
        ;
        let base = q as usize;
        if base < range.end - 1 - range.start {
            range.start + base
        } else {
            range.end - 1
        }
    }
}

pub open spec fn pow1000(k: nat) -> int
    decreases k,
{
    if k == 0 {
        1
    } else {
        1000 * pow1000((k - 1) as nat)
    }
}

proof fn lemma_pow1000_bound(k: nat, p: nat)
    requires
        k < p <= 4,
    ensures
        pow1000(k + 1) <= 1_000_000_000_000,
{
    reveal_with_fuel(pow1000, 5);
}

/// Takes the section `[from, from + length)` out of the plan and puts it
/// back at position `to` of what is left, reversed when `reverse` holds.
pub fn displace_at(
    milestones: &mut Vec<Milestone>,
    from: usize,
    length: usize,
    to: usize,
    reverse: bool,
)
    requires
        1 <= length,
        from + length <= old(milestones)@.len(),
        to <= old(milestones)@.len() - length,
        plan_wf(old(milestones)@),
    ensures
        final(milestones)@ == displaced(
            old(milestones)@,
            from as int,
            length as int,
            to as int,
            reverse,
        ),
        plan_wf(final(milestones)@),
{
    let ghost old_ms = milestones@;
    let n = milestones.len();
    let end = from + length;
    let mut section: Vec<Milestone> = Vec::new();
    let mut rest: Vec<Milestone> = Vec::new();
    let mut i: usize = 0;
    while i < n
        invariant
            i <= n == old_ms.len(),
            milestones@ == old_ms,
            from < end <= n,
            i <= from ==> rest@ == old_ms.subrange(0, i as int) && section@.len() == 0,
            from < i <= end ==> rest@ == old_ms.subrange(0, from as int) && section@
                == old_ms.subrange(from as int, i as int),
            end < i ==> rest@ == old_ms.subrange(0, from as int) + old_ms.subrange(
                end as int,
                i as int,
            ) && section@ == old_ms.subrange(from as int, end as int),
        decreases n - i,
    {
        if i >= from && i < end {
            section.push(milestones[i]);
        } else {
            rest.push(milestones[i]);
        }
        i += 1;
        proof {
            if i <= from {
                assert(rest@ =~= old_ms.subrange(0, i as int));
            } else if i <= end {
                assert(section@ =~= old_ms.subrange(from as int, i as int));
            } else {
                assert(rest@ =~= old_ms.subrange(0, from as int) + old_ms.subrange(end as int, i as int));
            }
        }
    }
    assert(rest@ =~= old_ms.subrange(0, from as int) + old_ms.subrange(end as int, n as int));
    let displace_to_index = to;
    let mut moved: Vec<Milestone> = Vec::new();
    let mut j: usize = 0;
    while j < section.len()
        invariant
            j <= section@.len(),
            moved@.len() == j,
            forall|k: int| 0 <= k < j ==> #[trigger] moved@[k] == if reverse {
                section@[section@.len() - 1 - k]
            } else {
                section@[k]
            },
        decreases section@.len() - j,
    {
        if reverse {
            moved.push(section[section.len() - 1 - j]);
        } else {
            moved.push(section[j]);
        }
        j += 1;
    }
    let mut result: Vec<Milestone> = Vec::new();
    let mut k: usize = 0;
    while k < rest.len()
        invariant
            k <= rest@.len(),
            displace_to_index <= rest@.len(),
            k <= displace_to_index ==> result@ == rest@.subrange(0, k as int),
            k > displace_to_index ==> result@ == rest@.subrange(0, displace_to_index as int)
                + moved@ + rest@.subrange(displace_to_index as int, k as int),
        decreases rest@.len() - k,
    {
        if k == displace_to_index {
            let mut m: usize = 0;
            while m < moved.len()
                invariant
                    m <= moved@.len(),
                    result@ == rest@.subrange(0, k as int) + moved@.subrange(0, m as int),
                decreases moved@.len() - m,
            {
                result.push(moved[m]);
                m += 1;
                assert(result@ =~= rest@.subrange(0, k as int) + moved@.subrange(0, m as int));
            }
            assert(moved@.subrange(0, m as int) =~= moved@);
        }
        result.push(rest[k]);
        k += 1;
        proof {
            if k <= displace_to_index {
                assert(result@ =~= rest@.subrange(0, k as int));
            } else {
                assert(result@ =~= rest@.subrange(0, displace_to_index as int) + moved@
                    + rest@.subrange(displace_to_index as int, k as int));
            }
        }
    }
    if displace_to_index == rest.len() {
        let mut m: usize = 0;
        while m < moved.len()
            invariant
                m <= moved@.len(),
                result@ == rest@ + moved@.subrange(0, m as int),
            decreases moved@.len() - m,
        {
            result.push(moved[m]);
            m += 1;
            assert(result@ =~= rest@ + moved@.subrange(0, m as int));
        }
        assert(moved@.subrange(0, m as int) =~= moved@);
    }
    proof {
        let sec = old_ms.subrange(from as int, end as int);
        let mv = if reverse {
            sec.reverse()
        } else {
            sec
        };
        assert(moved@ =~= mv);
        let d = displace_to_index as int;
        assert(result@ =~= rest@.subrange(0, d) + moved@ + rest@.subrange(d, rest@.len() as int));
        assert(result@ == displaced(old_ms, from as int, length as int, d, reverse));
        assert forall|q: int| 0 <= q < result@.len() implies
            crate::milestones::milestone_in_range(#[trigger] result@[q]) by {
            let a = rest@.subrange(0, d);
            if q < a.len() {
                assert(result@[q] == rest@[q]);
            } else if q < a.len() + moved@.len() {
                assert(result@[q] == moved@[q - a.len()]);
            } else {
                assert(result@[q] == rest@[q - moved@.len()]);
            }
            assert(forall|z: int| 0 <= z < rest@.len() ==> crate::milestones::milestone_in_range(#[trigger] rest@[z])) by {
                assert forall|z: int| 0 <= z < rest@.len() implies crate::milestones::milestone_in_range(#[trigger] rest@[z]) by {
                    if z < from {
                        assert(rest@[z] == old_ms[z]);
                    } else {
                        assert(rest@[z] == old_ms[z + length]);
                    }
                }
            }
            assert(forall|z: int| 0 <= z < moved@.len() ==> crate::milestones::milestone_in_range(#[trigger] moved@[z])) by {
                assert forall|z: int| 0 <= z < moved@.len() implies crate::milestones::milestone_in_range(#[trigger] moved@[z]) by {
                    if reverse {
                        assert(moved@[z] == old_ms[from + (length - 1 - z)]);
                    } else {
                        assert(moved@[z] == old_ms[from + z]);
                    }
                }
            }
        }
    }
    *milestones = result;
}


/// Moves a random section of the plan to a random place, reversed with
/// chance 1/2. The section is `1 + floor(u * u * min(|zombies|, 10))` long
/// for `u` drawn in `[0, 1)`, and ends with the plan at the latest.
fn displace_section(world: &World, strategy: &mut Strategy, rng: &mut ThreadRng) -> (r: bool)
    requires
        plan_wf(old(strategy).milestones@),
    ensures
        final(strategy).id == old(strategy).id,
        plan_wf(final(strategy).milestones@),
        r == (old(strategy).milestones@.len() >= 2),
        r ==> is_displace(
            old(strategy).milestones@,
            final(strategy).milestones@,
            displace_limit(world@),
        ),
        !r ==> final(strategy).milestones@ == old(strategy).milestones@,
{
    let max_length = if world.zombies.len() < 10 {
        world.zombies.len()
    } else {
        10
    };
    let range_random = RangeRandom { max_length, power: 2 };
    let n = strategy.milestones.len();
    if n < 2 {
        return false;
    }
    let ghost old_ms = strategy.milestones@;
    let from = random_index(rng, n);
    let length = 1 + range_random.gen(0..(n - from), rng);
    let reverse = random_ratio(rng, 1, 2);
    let to = random_index(rng, n - length + 1);
    displace_at(&mut strategy.milestones, from, length, to, reverse);
    assert(strategy.milestones@ == displaced(old_ms, from as int, length as int, to as int, reverse));
    true
}

} // verus!
