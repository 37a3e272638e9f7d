//! Entities, worlds, actions, milestones, strategies and events.
use vstd::prelude::*;
use crate::geometry::{V2, COORD_LIMIT};

verus! {

/// Width of the game map.
pub const MAP_WIDTH: i64 = 16000;
/// Height of the game map.
pub const MAP_HEIGHT: i64 = 9000;
/// How far the player moves in one tick at most.
pub const MAX_ASH_STEP: i64 = 1000;
/// Zombies at most this far from the player are destroyed.
pub const MAX_ASH_KILL_RANGE: i64 = 2000;
/// How far a zombie moves in one tick at most.
pub const MAX_ZOMBIE_STEP: i64 = 400;
/// The most humans, and the most zombies, that a world holds. The agent is
/// built for turns with at most a hundred entities in all, and the bound
/// keeps its arithmetic exact: the `k`-th kill of a tick scores the `k`-th
/// Fibonacci multiplier times `10 * H * H`, which grows exponentially in
/// the number of zombies, and with at most this many on each side every
/// kill score, weighted in fixed point, fits 128-bit integers.
pub const MAX_POPULATION: usize = 100;

/// Anything with a position on the grid.
pub trait Positioned {
    fn pos(&self) -> V2;
}

#[derive(Clone, Copy, Debug, PartialEq, Eq, Structural)]
pub struct Human {
    pub id: i32,
    pub pos: V2,
}

impl Positioned for Human {
    fn pos(&self) -> V2 {
        self.pos
    }
}

/// A zombie, with the point that it has announced it moves to next.
#[derive(Clone, Copy, Debug, PartialEq, Eq, Structural)]
pub struct Zombie {
    pub id: i32,
    pub pos: V2,
    pub next: V2,
}

impl Positioned for Zombie {
    fn pos(&self) -> V2 {
        self.pos
    }
}

/// The player's avatar.
#[derive(Clone, Copy, Debug, PartialEq, Eq, Structural)]
pub struct Ash {
    pub pos: V2,
}

impl Positioned for Ash {
    fn pos(&self) -> V2 {
        self.pos
    }
}

/// Whether no two entities of `s` share an id.
pub open spec fn unique_human_ids(s: Seq<Human>) -> bool {
    forall|i: int, j: int| 0 <= i < j < s.len() ==> s[i].id != s[j].id
}

pub open spec fn unique_zombie_ids(s: Seq<Zombie>) -> bool {
    forall|i: int, j: int| 0 <= i < j < s.len() ==> s[i].id != s[j].id
}

/// The abstract state of a world: the humans and zombies in iteration order.
pub struct WorldView {
    pub tick: int,
    pub ash: V2,
    pub humans: Seq<Human>,
    pub zombies: Seq<Zombie>,
}

impl WorldView {
    /// Ids are unique, the populations bounded and every point on the grid.
    pub open spec fn wf(self) -> bool {
        &&& 0 <= self.tick
        &&& self.ash.in_range()
        &&& self.humans.len() <= MAX_POPULATION
        &&& self.zombies.len() <= MAX_POPULATION
        &&& unique_human_ids(self.humans)
        &&& unique_zombie_ids(self.zombies)
        &&& forall|i: int| 0 <= i < self.humans.len() ==> #[trigger] self.humans[i].pos.in_range()
        &&& forall|i: int|
            0 <= i < self.zombies.len() ==> (#[trigger] self.zombies[i]).pos.in_range()
                && self.zombies[i].next.in_range()
    }

    /// The game is over: one side has nobody left.
    pub open spec fn is_over(self) -> bool {
        self.humans.len() == 0 || self.zombies.len() == 0
    }

    pub open spec fn has_zombie(self, id: i32) -> bool {
        exists|i: int| 0 <= i < self.zombies.len() && self.zombies[i].id == id
    }

    pub open spec fn has_human(self, id: i32) -> bool {
        exists|i: int| 0 <= i < self.humans.len() && self.humans[i].id == id
    }
}

/// The state of a game at one tick. Humans and zombies are held in the
/// order in which the game listed them, with unique ids; that order is the
/// iteration order of every pass of the simulator, and a lookup by id scans
/// at most `MAX_POPULATION` entries.
pub struct World {
    pub tick: i32,
    pub ash: Ash,
    pub humans: Vec<Human>,
    pub zombies: Vec<Zombie>,
}

impl View for World {
    type V = WorldView;

    open spec fn view(&self) -> WorldView {
        WorldView {
            tick: self.tick as int,
            ash: self.ash.pos,
            humans: self.humans@,
            zombies: self.zombies@,
        }
    }
}

fn in_range_exec(p: V2) -> (r: bool)
    ensures
        r == p.in_range(),
{
    -COORD_LIMIT <= p.x && p.x <= COORD_LIMIT && -COORD_LIMIT <= p.y && p.y <= COORD_LIMIT
}

/// A copy of a sequence of plain values.
pub fn copy_vec<T: Copy>(v: &Vec<T>) -> (r: Vec<T>)
    ensures
        r@ == v@,
{
    let mut r: Vec<T> = Vec::new();
    let mut i: usize = 0;
    while i < v.len()
        invariant
            i <= v.len(),
            r@ == v@.subrange(0, i as int),
        decreases v.len() - i,
    {
        r.push(v[i]);
        i += 1;
        assert(r@ =~= v@.subrange(0, i as int));
    }
    assert(r@ =~= v@);
    r
}

impl World {
    /// An empty world at tick 0 with the player at the origin.
    pub fn new() -> (r: World)
        ensures
            r@.tick == 0,
            r@.ash == (V2 { x: 0, y: 0 }),
            r@.humans.len() == 0,
            r@.zombies.len() == 0,
            r@.wf(),
    {
        World { tick: 0, ash: Ash { pos: V2::zero() }, humans: Vec::new(), zombies: Vec::new() }
    }

    /// A copy of this world.
    pub fn duplicate(&self) -> (r: World)
        ensures
            r@ == self@,
    {
        World {
            tick: self.tick,
            ash: self.ash,
            humans: copy_vec(&self.humans),
            zombies: copy_vec(&self.zombies),
        }
    }

    /// Whether the world is well formed: unique ids, populations of at most
    /// `MAX_POPULATION`, a non-negative tick and every point on the grid.
    pub fn is_valid(&self) -> (r: bool)
        ensures
            r == self@.wf(),
    {
        if self.tick < 0 || !in_range_exec(self.ash.pos) || self.humans.len() > MAX_POPULATION
            || self.zombies.len() > MAX_POPULATION {
            return false;
        }
        let mut i: usize = 0;
        while i < self.humans.len()
            invariant
                i <= self.humans@.len(),
                forall|a: int| 0 <= a < i ==> (#[trigger] self.humans@[a]).pos.in_range(),
                forall|a: int, b: int| 0 <= a < b < self.humans@.len() && a < i ==> self.humans@[a].id
                    != self.humans@[b].id,
            decreases self.humans@.len() - i,
        {
            if !in_range_exec(self.humans[i].pos) {
                return false;
            }
            let mut j: usize = i + 1;
            while j < self.humans.len()
                invariant
                    i < j <= self.humans@.len(),
                    forall|b: int| i < b < j ==> self.humans@[i as int].id != self.humans@[b].id,
                decreases self.humans@.len() - j,
            {
                if self.humans[i].id == self.humans[j].id {
                    return false;
                }
                j += 1;
            }
            i += 1;
        }
        let mut i: usize = 0;
        while i < self.zombies.len()
            invariant
                i <= self.zombies@.len(),
                forall|a: int| 0 <= a < i ==> (#[trigger] self.zombies@[a]).pos.in_range()
                    && self.zombies@[a].next.in_range(),
                forall|a: int, b: int| 0 <= a < b < self.zombies@.len() && a < i ==> self.zombies@[a].id
                    != self.zombies@[b].id,
            decreases self.zombies@.len() - i,
        {
            if !in_range_exec(self.zombies[i].pos) || !in_range_exec(self.zombies[i].next) {
                return false;
            }
            let mut j: usize = i + 1;
            while j < self.zombies.len()
                invariant
                    i < j <= self.zombies@.len(),
                    forall|b: int| i < b < j ==> self.zombies@[i as int].id != self.zombies@[b].id,
                decreases self.zombies@.len() - j,
            {
                if self.zombies[i].id == self.zombies[j].id {
                    return false;
                }
                j += 1;
            }
            i += 1;
        }
        true
    }

    /// Looks up a zombie by id.
    pub fn find_zombie(&self, id: i32) -> (r: Option<usize>)
        ensures
            match r {
                Some(i) => i < self.zombies.len() && self.zombies@[i as int].id == id,
                None => !self@.has_zombie(id),
            },
    {
        let mut i: usize = 0;
        while i < self.zombies.len()
            invariant
                i <= self.zombies.len(),
                forall|j: int| 0 <= j < i ==> self.zombies@[j].id != id,
            decreases self.zombies.len() - i,
        {
            if self.zombies[i].id == id {
                return Some(i);
            }
            i += 1;
        }
        None
    }

    /// Looks up a human by id.
    pub fn find_human(&self, id: i32) -> (r: Option<usize>)
        ensures
            match r {
                Some(i) => i < self.humans.len() && self.humans@[i as int].id == id,
                None => !self@.has_human(id),
            },
    {
        let mut i: usize = 0;
        while i < self.humans.len()
            invariant
                i <= self.humans.len(),
                forall|j: int| 0 <= j < i ==> self.humans@[j].id != id,
            decreases self.humans.len() - i,
        {
            if self.humans[i].id == id {
                return Some(i);
            }
            i += 1;
        }
        None
    }
}

/// The point that the player is sent toward for one tick.
#[derive(Clone, Copy, Debug, PartialEq, Eq, Structural)]
pub struct Action {
    pub target: V2,
}

/// The atomic unit of intent of a strategy.
#[derive(Clone, Copy, Debug, PartialEq, Eq, Structural)]
pub enum Milestone {
    KillZombie { zombie_id: i32 },
    ProtectHuman { human_id: i32 },
    MoveTo { target: V2 },
}

impl Milestone {
    pub fn is_move(&self) -> (r: bool)
        ensures
            r == (self is MoveTo),
    {
        match self {
            Milestone::MoveTo { .. } => true,
            _ => false,
        }
    }
}

/// An ordered plan of milestones; `id` only tells strategies apart.
pub struct Strategy {
    pub id: i32,
    pub milestones: Vec<Milestone>,
}

impl Strategy {
    pub fn new(id: i32) -> (r: Strategy)
        ensures
            r.id == id,
            r.milestones@.len() == 0,
    {
        Strategy { id, milestones: Vec::new() }
    }

    /// The same plan under a new id.
    pub fn seed(&self, id: i32) -> (r: Strategy)
        ensures
            r.id == id,
            r.milestones@ == self.milestones@,
    {
        Strategy { id, milestones: copy_vec(&self.milestones) }
    }

    pub fn is_empty(&self) -> (r: bool)
        ensures
            r == (self.milestones@.len() == 0),
    {
        self.milestones.len() == 0
    }
}

/// What one tick of the simulator reports, in order.
#[derive(Clone, Copy, Debug, PartialEq, Eq, Structural)]
pub enum Event {
    ZombieKilled { tick: i32, zombie_id: i32, score: u128 },
    HumanKilled { tick: i32, human_id: i32 },
    Won { tick: i32, num_humans: usize },
    Lost { tick: i32, num_zombies: usize },
}

impl Event {
    pub open spec fn is_terminal(self) -> bool {
        self is Won || self is Lost
    }

    pub fn is_ending(&self) -> (r: bool)
        ensures
            r == self.is_terminal(),
    {
        match self {
            Event::Won { .. } => true,
            Event::Lost { .. } => true,
            _ => false,
        }
    }
}

} // verus!
