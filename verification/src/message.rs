//! The two message families that robots and the hub exchange, and the state
//! snapshot that telemetry carries.

use crate::position::Position;
use crate::scalar::Scalar;
use vstd::prelude::*;

verus! {

/// Identity and kinematic snapshot of one robot, as the robot reports it.
#[derive(Debug, PartialEq, Eq)]
pub struct RobotState {
    /// Chosen by the robot; the key under which the hub files it.
    pub id: String,
    pub x: Scalar,
    pub y: Scalar,
    /// Workspace units per second.
    pub speed: Scalar,
    /// Heading in radians.
    pub angle: Scalar,
    /// `false` while the robot is under a stop command.
    pub active: bool,
    /// Display colour; carried through untouched.
    pub color: (u8, u8, u8),
}

/// What a [`RobotState`] is in specifications: the same fields, the
/// identifier as a sequence of characters.
pub struct RobotStateView {
    pub id: Seq<char>,
    pub x: Scalar,
    pub y: Scalar,
    pub speed: Scalar,
    pub angle: Scalar,
    pub active: bool,
    pub color: (u8, u8, u8),
}

impl RobotStateView {
    /// Where the robot is.
    pub open spec fn position(self) -> Position {
        Position { x: self.x, y: self.y }
    }
}

impl View for RobotState {
    type V = RobotStateView;

    open spec fn view(&self) -> RobotStateView {
        RobotStateView {
            id: self.id@,
            x: self.x,
            y: self.y,
            speed: self.speed,
            angle: self.angle,
            active: self.active,
            color: self.color,
        }
    }
}

impl Clone for RobotState {
    fn clone(&self) -> (r: Self)
        ensures
            r == *self,
    {
        RobotState {
            id: self.id.clone(),
            x: self.x,
            y: self.y,
            speed: self.speed,
            angle: self.angle,
            active: self.active,
            color: self.color,
        }
    }
}

impl RobotState {
    /// Where the robot is.
    pub fn position(&self) -> (r: Position)
        ensures
            r == self@.position(),
    {
        Position { x: self.x, y: self.y }
    }
}

/// Messages from a robot to the hub.
#[derive(Debug, PartialEq, Eq)]
pub enum ClientMessage {
    /// A full state snapshot; it supersedes what the hub knew of that robot.
    Telemetry(RobotState),
    /// The robot with this identifier ends its session.
    Disconnect(String),
}

/// What a [`ClientMessage`] is in specifications.
pub enum ClientMessageView {
    Telemetry(RobotStateView),
    Disconnect(Seq<char>),
}

impl View for ClientMessage {
    type V = ClientMessageView;

    open spec fn view(&self) -> ClientMessageView {
        match self {
            ClientMessage::Telemetry(state) => ClientMessageView::Telemetry(state@),
            ClientMessage::Disconnect(id) => ClientMessageView::Disconnect(id@),
        }
    }
}

impl Clone for ClientMessage {
    fn clone(&self) -> (r: Self)
        ensures
            r == *self,
    {
        match self {
            ClientMessage::Telemetry(state) => ClientMessage::Telemetry(state.clone()),
            ClientMessage::Disconnect(id) => ClientMessage::Disconnect(id.clone()),
        }
    }
}

/// Messages from the hub to a robot.
#[derive(Debug, PartialEq, Eq)]
pub enum ServerMessage {
    /// Halt. Repeating the order changes nothing.
    ForceStop,
    /// Resume motion.
    Resume,
    /// Cap the robot's target speed.
    SetSpeedLimit(Scalar),
    /// Advisory text; no state changes.
    Warning(String),
}

/// What a [`ServerMessage`] is in specifications.
pub enum ServerMessageView {
    ForceStop,
    Resume,
    SetSpeedLimit(Scalar),
    Warning(Seq<char>),
}

impl View for ServerMessage {
    type V = ServerMessageView;

    open spec fn view(&self) -> ServerMessageView {
        match self {
            ServerMessage::ForceStop => ServerMessageView::ForceStop,
            ServerMessage::Resume => ServerMessageView::Resume,
            ServerMessage::SetSpeedLimit(limit) => ServerMessageView::SetSpeedLimit(*limit),
            ServerMessage::Warning(text) => ServerMessageView::Warning(text@),
        }
    }
}

impl Clone for ServerMessage {
    fn clone(&self) -> (r: Self)
        ensures
            r == *self,
    {
        match self {
            ServerMessage::ForceStop => ServerMessage::ForceStop,
            ServerMessage::Resume => ServerMessage::Resume,
            ServerMessage::SetSpeedLimit(limit) => ServerMessage::SetSpeedLimit(*limit),
            ServerMessage::Warning(text) => ServerMessage::Warning(text.clone()),
        }
    }
}

} // verus!
