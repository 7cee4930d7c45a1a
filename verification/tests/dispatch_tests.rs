use cobot_hub::dispatch::{
    send_to, send_to_all, speed_limit_order, stop_flagged, Delivery, SPEED_LIMIT_MAX,
};
use cobot_hub::fault::Fault;
use cobot_hub::message::{RobotState, ServerMessage};
use cobot_hub::registry::Registry;
use cobot_hub::scalar::Scalar;

fn s(v: f32) -> Scalar {
    Scalar::from_bits(v.to_bits())
}

fn robot(id: &str, active: bool) -> RobotState {
    RobotState {
        id: id.to_string(),
        x: s(300.0),
        y: s(200.0),
        speed: s(50.0),
        angle: s(0.0),
        active,
        color: (1, 2, 3),
    }
}

fn fleet() -> Registry {
    let mut registry = Registry::new();
    registry.upsert(robot("a", true), 1, 11);
    registry.upsert(robot("b", false), 1, 22);
    registry.upsert(robot("c", true), 1, 33);
    registry
}

#[test]
fn targeted_message_goes_to_the_handle_of_the_robot() {
    let sent = send_to(&fleet(), &"b".to_string(), ServerMessage::Resume);
    assert_eq!(
        sent,
        Ok(Delivery { target: "b".to_string(), handle: 1, message: ServerMessage::Resume })
    );
}

#[test]
fn targeted_message_to_an_unknown_robot_has_no_route() {
    let sent = send_to(&fleet(), &"z".to_string(), ServerMessage::ForceStop);
    assert_eq!(sent, Err(Fault::UnknownRoute));
    let sent = send_to(&Registry::new(), &"a".to_string(), ServerMessage::ForceStop);
    assert_eq!(sent, Err(Fault::UnknownRoute));
}

#[test]
fn speed_limit_reaches_every_live_robot_once() {
    let limit = ServerMessage::SetSpeedLimit(s(150.0));
    let sent = send_to_all(&fleet(), &limit);
    assert_eq!(
        sent,
        vec![
            Delivery { target: "a".to_string(), handle: 0, message: limit.clone() },
            Delivery { target: "b".to_string(), handle: 1, message: limit.clone() },
            Delivery { target: "c".to_string(), handle: 2, message: limit.clone() },
        ]
    );
}

#[test]
fn broadcast_skips_removed_robots() {
    let mut registry = fleet();
    registry.remove(&"b".to_string());
    let sent = send_to_all(&registry, &ServerMessage::ForceStop);
    assert_eq!(sent.len(), 2);
    assert!(sent.iter().all(|d| d.target != "b" && d.handle != 1));
    registry.remove(&"a".to_string());
    registry.remove(&"c".to_string());
    assert!(send_to_all(&registry, &ServerMessage::ForceStop).is_empty());
}

#[test]
fn broadcast_reaches_active_and_stopped_robots_alike() {
    let sent = send_to_all(&fleet(), &ServerMessage::SetSpeedLimit(s(0.0)));
    let handles: Vec<u64> = sent.iter().map(|d| d.handle).collect();
    assert_eq!(handles, vec![0, 1, 2]);
}

#[test]
fn broadcast_to_nobody_is_empty() {
    assert!(send_to_all(&Registry::new(), &ServerMessage::Resume).is_empty());
}

#[test]
fn broadcast_of_a_warning_copies_the_text() {
    let text = ServerMessage::Warning("slow down".to_string());
    let sent = send_to_all(&fleet(), &text);
    assert_eq!(sent.len(), 3);
    assert!(sent.iter().all(|d| d.message == text));
}

#[test]
fn stop_orders_skip_unknown_and_stopped_robots() {
    let ids = vec!["c".to_string(), "z".to_string(), "b".to_string(), "a".to_string()];
    let mut registry = fleet();
    let sent = stop_flagged(&mut registry, &ids);
    let warning = ServerMessage::Warning("Collision/Boundary Risk!".to_string());
    assert_eq!(
        sent,
        vec![
            Delivery { target: "c".to_string(), handle: 2, message: ServerMessage::ForceStop },
            Delivery { target: "c".to_string(), handle: 2, message: warning.clone() },
            Delivery { target: "a".to_string(), handle: 0, message: ServerMessage::ForceStop },
            Delivery { target: "a".to_string(), handle: 0, message: warning.clone() },
        ]
    );
}

#[test]
fn stop_orders_mark_their_robots_as_stopped() {
    let mut registry = fleet();
    stop_flagged(&mut registry, &vec!["a".to_string()]);
    assert!(!registry.get(&"a".to_string()).unwrap().state.active);
    assert!(!registry.get(&"b".to_string()).unwrap().state.active);
    assert!(registry.get(&"c".to_string()).unwrap().state.active);
    assert_eq!(registry.len(), 3);
}

#[test]
fn a_robot_that_is_named_twice_is_ordered_once() {
    let mut registry = fleet();
    let ids = vec!["a".to_string(), "a".to_string()];
    assert_eq!(stop_flagged(&mut registry, &ids).len(), 2);
    assert!(stop_flagged(&mut registry, &ids).is_empty());
}

#[test]
fn stop_orders_for_nobody_are_empty() {
    let mut registry = fleet();
    assert!(stop_flagged(&mut registry, &Vec::new()).is_empty());
    assert!(registry.get(&"a".to_string()).unwrap().state.active);
}

#[test]
fn speed_limits_from_zero_to_two_hundred_are_handed_out() {
    assert_eq!(SPEED_LIMIT_MAX, 200);
    for v in [0.0f32, -0.0, 0.5, 100.0, 150.0, 199.99998, 200.0] {
        assert_eq!(speed_limit_order(s(v)), Some(ServerMessage::SetSpeedLimit(s(v))));
    }
}

#[test]
fn speed_limits_out_of_range_are_not_handed_out() {
    for v in [-1.0e-45f32, -1.0, 200.00002, 1.0e9, f32::INFINITY, f32::NEG_INFINITY, f32::NAN] {
        assert_eq!(speed_limit_order(s(v)), None);
    }
}
