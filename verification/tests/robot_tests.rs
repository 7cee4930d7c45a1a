use cobot_hub::fault::Fault;
use cobot_hub::message::{RobotState, ServerMessage};
use cobot_hub::robot::{obey, Effect};
use cobot_hub::scalar::Scalar;

fn s(v: f32) -> Scalar {
    Scalar::from_bits(v.to_bits())
}

fn moving() -> RobotState {
    RobotState {
        id: "Cobot-123".to_string(),
        x: s(12.3),
        y: s(44.0),
        speed: s(50.0),
        angle: s(1.57),
        active: true,
        color: (10, 20, 30),
    }
}

#[test]
fn forced_stop_halts_a_moving_robot() {
    let mut state = moving();
    let mut limit = s(200.0);
    assert_eq!(obey(&mut state, &mut limit, &ServerMessage::ForceStop), Effect::Halted);
    let mut expected = moving();
    expected.active = false;
    expected.speed = s(0.0);
    assert_eq!(state, expected);
    assert_eq!(limit, s(200.0));
}

#[test]
fn a_second_forced_stop_changes_nothing() {
    let mut state = moving();
    let mut limit = s(200.0);
    obey(&mut state, &mut limit, &ServerMessage::ForceStop);
    let halted = state.clone();
    assert_eq!(obey(&mut state, &mut limit, &ServerMessage::ForceStop), Effect::AlreadyHalted);
    assert_eq!(state, halted);
}

#[test]
fn resume_makes_the_robot_active() {
    let mut state = moving();
    let mut limit = s(200.0);
    obey(&mut state, &mut limit, &ServerMessage::ForceStop);
    assert_eq!(obey(&mut state, &mut limit, &ServerMessage::Resume), Effect::Resumed);
    assert!(state.active);
    assert_eq!(state.speed, s(0.0));
    assert_eq!(obey(&mut state, &mut limit, &ServerMessage::Resume), Effect::Resumed);
    assert!(state.active);
}

#[test]
fn speed_limit_replaces_the_limit_only() {
    let mut state = moving();
    let mut limit = s(200.0);
    let order = ServerMessage::SetSpeedLimit(s(150.0));
    assert_eq!(obey(&mut state, &mut limit, &order), Effect::LimitSet);
    assert_eq!(limit, s(150.0));
    assert_eq!(state, moving());
}

#[test]
fn warning_changes_nothing() {
    let mut state = moving();
    let mut limit = s(200.0);
    let text = ServerMessage::Warning("Collision/Boundary Risk!".to_string());
    assert_eq!(obey(&mut state, &mut limit, &text), Effect::Warned);
    assert_eq!(state, moving());
    assert_eq!(limit, s(200.0));
}

#[test]
fn only_a_broken_link_is_terminal() {
    assert!(Fault::MalformedMessage.is_recoverable());
    assert!(Fault::UnknownRoute.is_recoverable());
    assert!(!Fault::LinkBroken.is_recoverable());
}
