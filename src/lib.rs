//! A real-time decision agent for the zombie-hunting grid game.
//!
//! Each turn the agent sees the player, the humans and the zombies, and
//! picks one point to move toward. The library holds:
//! - `geometry`, `model`: the game on its integer grid;
//! - `simulator`: the deterministic one-tick transition and its laws;
//! - `milestones`, `rollouts`: plans compiled into actions and run forward;
//! - `evaluation`: fixed-point scoring of event traces and the kill bound;
//! - `mutations`, `agent`: the anytime search over a pool of elite plans;
//! - `parser`: the text of one turn's observation;
//! - `random`, `clock`: the draws and the wall clock the search relies on.
use vstd::prelude::*;

pub mod geometry;
pub mod model;
pub mod simulator;
pub mod milestones;
pub mod random;
pub mod evaluation;
pub mod rollouts;
pub mod mutations;
pub mod clock;
pub mod agent;
pub mod parser;

verus! {

} // verus!
