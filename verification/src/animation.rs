//! Which animation goes with which movement state.

use crate::movement::{MovementState, MoverId};
use vstd::prelude::*;

verus! {

/// Name of the clip played while a mover is idle.
pub const IDLE: &'static str = "idle";

/// Name of the clip played while a mover walks.
pub const WALK: &'static str = "walk";

/// Name of the clip played while a mover runs.
pub const RUN: &'static str = "run";

/// Marks a model whose animation graph has been set up and started.
#[derive(Clone, Copy, Debug, PartialEq, Eq, Structural)]
pub struct AnimationGraphInitialized;

/// Marks a model whose first animation has been played.
#[derive(Clone, Copy, Debug, PartialEq, Eq, Structural)]
pub struct InitialAnimationPlayed;

/// A request to play the clip `animation_name` on the model of `model_animation_graph`.
#[derive(Debug)]
pub struct PlayAnimation {
    pub animation_name: String,
    pub model_animation_graph: MoverId,
}

/// The clip that shows `state`.
pub open spec fn animation_for(state: MovementState) -> Seq<char> {
    match state {
        MovementState::Idle => IDLE@,
        MovementState::Walking => WALK@,
        MovementState::Running => RUN@,
    }
}

/// Asks for the clip that shows the state `movement_state` that the mover
/// `entity` has changed to.
pub fn movement_state_to_animation(entity: MoverId, movement_state: MovementState) -> (event:
    PlayAnimation)
    ensures
        event.animation_name@ == animation_for(movement_state),
        event.model_animation_graph == entity,
{
    let animation_name = match movement_state {
        MovementState::Idle => IDLE,
        MovementState::Walking => WALK,
        MovementState::Running => RUN,
    };
    PlayAnimation { animation_name: animation_name.to_owned(), model_animation_graph: entity }
}

} // verus!
