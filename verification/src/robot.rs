//! The robot's side of the protocol: what a command from the hub does to
//! the robot's own state. How a halted robot moves away from an obstacle is
//! the robot's business and not decided here.

use crate::message::{RobotState, RobotStateView, ServerMessage, ServerMessageView};
use crate::scalar::Scalar;
use vstd::prelude::*;

verus! {

/// What a command did.
#[derive(Clone, Copy, Debug, PartialEq, Eq, Structural)]
pub enum Effect {
    /// The robot was moving and has been halted.
    Halted,
    /// The robot was already halted; nothing changed.
    AlreadyHalted,
    /// The robot may move again.
    Resumed,
    /// The speed limit was replaced.
    LimitSet,
    /// The text is for the operator; nothing changed.
    Warned,
}

/// The robot's state after a command: a forced stop halts an active robot
/// and sets its speed to zero, a resume makes the robot active, and nothing
/// else touches the state.
pub open spec fn state_after(state: RobotStateView, message: ServerMessageView) -> RobotStateView {
    match message {
        ServerMessageView::ForceStop => if state.active {
            RobotStateView { active: false, speed: Scalar { bits: 0 }, ..state }
        } else {
            state
        },
        ServerMessageView::Resume => RobotStateView { active: true, ..state },
        _ => state,
    }
}

/// The robot's speed limit after a command.
pub open spec fn limit_after(limit: Scalar, message: ServerMessageView) -> Scalar {
    match message {
        ServerMessageView::SetSpeedLimit(new_limit) => new_limit,
        _ => limit,
    }
}

/// What a command does to a robot in state `state`.
pub open spec fn effect_of(state: RobotStateView, message: ServerMessageView) -> Effect {
    match message {
        ServerMessageView::ForceStop => if state.active {
            Effect::Halted
        } else {
            Effect::AlreadyHalted
        },
        ServerMessageView::Resume => Effect::Resumed,
        ServerMessageView::SetSpeedLimit(_) => Effect::LimitSet,
        ServerMessageView::Warning(_) => Effect::Warned,
    }
}

/// Applies a command of the hub to the robot's state and speed limit.
pub fn obey(state: &mut RobotState, limit: &mut Scalar, message: &ServerMessage) -> (effect:
    Effect)
    ensures
        final(state)@ == state_after(old(state)@, message@),
        *final(limit) == limit_after(*old(limit), message@),
        effect == effect_of(old(state)@, message@),
{
    match message {
        ServerMessage::ForceStop => {
            if state.active {
                state.active = false;
                state.speed = Scalar::zero();
                Effect::Halted
            } else {
                Effect::AlreadyHalted
            }
        },
        ServerMessage::Resume => {
            state.active = true;
            Effect::Resumed
        },
        ServerMessage::SetSpeedLimit(new_limit) => {
            *limit = *new_limit;
            Effect::LimitSet
        },
        ServerMessage::Warning(_) => Effect::Warned,
    }
}

/// A forced stop is idempotent: a second one changes nothing and is
/// reported as such.
pub proof fn lemma_force_stop_is_idempotent(state: RobotStateView)
    ensures
        state_after(state_after(state, ServerMessageView::ForceStop), ServerMessageView::ForceStop)
            == state_after(state, ServerMessageView::ForceStop),
        effect_of(state_after(state, ServerMessageView::ForceStop), ServerMessageView::ForceStop)
            == Effect::AlreadyHalted,
        !state_after(state, ServerMessageView::ForceStop).active,
{
}

/// A warning changes neither the state nor the speed limit.
pub proof fn lemma_warning_changes_nothing(state: RobotStateView, limit: Scalar, text: Seq<char>)
    ensures
        state_after(state, ServerMessageView::Warning(text)) == state,
        limit_after(limit, ServerMessageView::Warning(text)) == limit,
{
}

} // verus!
