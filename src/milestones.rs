//! Compiles a milestone into the action of one tick.
use vstd::prelude::*;
use crate::geometry::V2;
use crate::model::{Action, Human, Milestone, World, WorldView, Zombie};

verus! {

/// The zombie of `w` with id `id` (ids are unique in a well-formed world).
pub open spec fn zombie_with(w: WorldView, id: i32) -> Zombie {
    w.zombies[choose|i: int| 0 <= i < w.zombies.len() && w.zombies[i].id == id]
}

pub open spec fn human_with(w: WorldView, id: i32) -> Human {
    w.humans[choose|i: int| 0 <= i < w.humans.len() && w.humans[i].id == id]
}

/// The player stands within one unit of `p`.
pub open spec fn is_reached(w: WorldView, p: V2) -> bool {
    w.ash.dist2(p) < 1
}

/// The action a milestone asks for in `w`, or `None` when it is done or no
/// longer applies.
pub open spec fn milestone_action(m: Milestone, w: WorldView) -> Option<Action> {
    match m {
        Milestone::KillZombie { zombie_id } => if w.has_zombie(zombie_id) {
            Some(Action { target: zombie_with(w, zombie_id).next })
        } else {
            None
        },
        Milestone::ProtectHuman { human_id } => if w.has_human(human_id) && !is_reached(
            w,
            human_with(w, human_id).pos,
        ) {
            Some(Action { target: human_with(w, human_id).pos })
        } else {
            None
        },
        Milestone::MoveTo { target } => if !is_reached(w, target) {
            Some(Action { target })
        } else {
            None
        },
    }
}

/// The target of a milestone's action is a point of the world or of the
/// milestone itself.
pub open spec fn milestone_in_range(m: Milestone) -> bool {
    match m {
        Milestone::MoveTo { target } => target.in_range(),
        _ => true,
    }
}

impl Milestone {
    /// The action this milestone asks for in `world`; `None` once it is done.
    pub fn to_action(&self, world: &World) -> (r: Option<Action>)
        requires
            world@.wf(),
            milestone_in_range(*self),
        ensures
            r == milestone_action(*self, world@),
            r matches Some(a) ==> a.target.in_range(),
    {
        match self {
            Milestone::KillZombie { zombie_id } => kill_zombie_to_action(*zombie_id, world),
            Milestone::ProtectHuman { human_id } => protect_human_to_action(*human_id, world),
            Milestone::MoveTo { target } => move_to_action(*target, world),
        }
    }
}

/// The action `milestone` asks for in `world`; `None` once it is done.
pub fn from_milestone(milestone: &Milestone, world: &World) -> (r: Option<Action>)
    requires
        world@.wf(),
        milestone_in_range(*milestone),
    ensures
        r == milestone_action(*milestone, world@),
        r matches Some(a) ==> a.target.in_range(),
{
    milestone.to_action(world)
}

fn kill_zombie_to_action(zombie_id: i32, world: &World) -> (r: Option<Action>)
    requires
        world@.wf(),
    ensures
        r == milestone_action(Milestone::KillZombie { zombie_id }, world@),
        r matches Some(a) ==> a.target.in_range(),
{
    match world.find_zombie(zombie_id) {
        Some(i) => {
            proof {
                let w = world@;
                let j = choose|j: int| 0 <= j < w.zombies.len() && w.zombies[j].id == zombie_id;
                assert(j == i as int);
            }
            Some(Action { target: world.zombies[i].next })
        },
        None => None,
    }
}

fn protect_human_to_action(human_id: i32, world: &World) -> (r: Option<Action>)
    requires
        world@.wf(),
    ensures
        r == milestone_action(Milestone::ProtectHuman { human_id }, world@),
        r matches Some(a) ==> a.target.in_range(),
{
    match world.find_human(human_id) {
        Some(i) => {
            let human = world.humans[i];
            proof {
                let w = world@;
                let j = choose|j: int| 0 <= j < w.humans.len() && w.humans[j].id == human_id;
                assert(j == i as int);
            }
            let distance = world.ash.pos.distance_to_squared(human.pos);
            if distance < 1 {
                None
            } else {
                Some(Action { target: human.pos })
            }
        },
        None => None,
    }
}

fn move_to_action(target: V2, world: &World) -> (r: Option<Action>)
    requires
        world@.wf(),
        target.in_range(),
    ensures
        r == milestone_action(Milestone::MoveTo { target }, world@),
        r matches Some(a) ==> a.target.in_range(),
{
    let distance = world.ash.pos.distance_to_squared(target);
    if distance < 1 {
        None
    } else {
        Some(Action { target })
    }
}

/// A milestone compiles to `None` exactly when the entity it names is gone,
/// or the player already stands within one unit of the point it names.
pub proof fn lemma_milestone_none_iff(m: Milestone, w: WorldView)
    ensures
        milestone_action(m, w) is None <==> match m {
            Milestone::KillZombie { zombie_id } => !w.has_zombie(zombie_id),
            Milestone::ProtectHuman { human_id } => !w.has_human(human_id) || is_reached(
                w,
                human_with(w, human_id).pos,
            ),
            Milestone::MoveTo { target } => is_reached(w, target),
        },
{
}

} // verus!
