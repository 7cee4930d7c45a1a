use cobot_hub::dispatch::send_to_all;
use cobot_hub::fault::Fault;
use cobot_hub::message::{ClientMessage, RobotState, ServerMessage};
use cobot_hub::monitor::monitor_pass;
use cobot_hub::registry::{Leaver, Registry};
use cobot_hub::scalar::Scalar;
use cobot_hub::session::{Ending, Inbound, Session, Step};

fn s(v: f32) -> Scalar {
    Scalar::from_bits(v.to_bits())
}

fn report(id: &str, x: f32, y: f32) -> Inbound {
    Inbound::Message(ClientMessage::Telemetry(RobotState {
        id: id.to_string(),
        x: s(x),
        y: s(y),
        speed: s(50.0),
        angle: s(0.0),
        active: true,
        color: (9, 9, 9),
    }))
}

fn ids(registry: &Registry) -> Vec<String> {
    registry.entries().iter().map(|e| e.state.id.clone()).collect()
}

#[test]
fn an_open_session_has_its_number() {
    let session = Session::open(5);
    assert_eq!(session.number(), 5);
}

#[test]
fn first_report_registers_and_later_reports_update() {
    let mut registry = Registry::new();
    let session = Session::open(5);
    let step = session.receive(&mut registry, report("a", 100.0, 100.0), 10);
    assert_eq!(step, Step::Accepted { created: true, handle: 0 });
    let step = session.receive(&mut registry, report("a", 101.0, 100.0), 11);
    assert_eq!(step, Step::Accepted { created: false, handle: 0 });
    assert_eq!(registry.len(), 1);
    let entry = registry.get(&"a".to_string()).unwrap();
    assert_eq!(entry.owner, 5);
    assert_eq!(entry.outbound, 0);
    assert_eq!(entry.last_seen, 11);
    assert_eq!(entry.trail.len(), 2);
}

#[test]
fn a_malformed_record_is_skipped_and_the_session_goes_on() {
    let mut registry = Registry::new();
    let session = Session::open(5);
    session.receive(&mut registry, report("a", 100.0, 100.0), 10);
    let step = session.receive(&mut registry, Inbound::Malformed, 11);
    assert_eq!(step, Step::Skipped(Fault::MalformedMessage));
    assert_eq!(registry.len(), 1);
    assert_eq!(registry.get(&"a".to_string()).unwrap().last_seen, 10);
    let step = session.receive(&mut registry, report("a", 102.0, 100.0), 12);
    assert_eq!(step, Step::Accepted { created: false, handle: 0 });
    assert_eq!(registry.get(&"a".to_string()).unwrap().trail.len(), 2);
}

#[test]
fn disconnect_end_of_stream_and_failed_read_end_the_session() {
    let mut registry = Registry::new();
    let session = Session::open(5);
    session.receive(&mut registry, report("a", 100.0, 100.0), 10);
    let bye = Inbound::Message(ClientMessage::Disconnect("a".to_string()));
    assert_eq!(session.receive(&mut registry, bye, 11), Step::Ended(Ending::Disconnected));
    assert_eq!(
        session.receive(&mut registry, Inbound::EndOfStream, 11),
        Step::Ended(Ending::EndOfStream)
    );
    assert_eq!(
        session.receive(&mut registry, Inbound::ReadFailed, 11),
        Step::Ended(Ending::LinkBroken)
    );
    // the registry is untouched until the session is closed
    assert!(registry.contains(&"a".to_string()));
}

#[test]
fn closing_removes_the_robot_from_registry_and_broadcasts() {
    let mut registry = Registry::new();
    let first = Session::open(1);
    let second = Session::open(2);
    first.receive(&mut registry, report("a", 100.0, 100.0), 10);
    second.receive(&mut registry, report("b", 120.0, 100.0), 10);
    assert_eq!(send_to_all(&registry, &ServerMessage::Resume).len(), 2);
    let bye = Inbound::Message(ClientMessage::Disconnect("a".to_string()));
    assert_eq!(first.receive(&mut registry, bye, 11), Step::Ended(Ending::Disconnected));
    assert_eq!(first.close(&mut registry), vec![Leaver { id: "a".to_string(), handle: 0 }]);
    assert!(!registry.contains(&"a".to_string()));
    let sent = send_to_all(&registry, &ServerMessage::SetSpeedLimit(s(80.0)));
    assert_eq!(sent.len(), 1);
    assert_eq!(sent[0].target, "b");
    assert_eq!(sent[0].handle, 1);
    // the robot that stayed is no longer crowded
    assert!(monitor_pass(&mut registry).is_empty());
}

#[test]
fn closing_after_end_of_stream_removes_the_robot() {
    let mut registry = Registry::new();
    let session = Session::open(1);
    session.receive(&mut registry, report("a", 100.0, 100.0), 10);
    assert_eq!(
        session.receive(&mut registry, Inbound::EndOfStream, 11),
        Step::Ended(Ending::EndOfStream)
    );
    assert_eq!(session.close(&mut registry), vec![Leaver { id: "a".to_string(), handle: 0 }]);
    assert_eq!(registry.len(), 0);
    assert!(send_to_all(&registry, &ServerMessage::ForceStop).is_empty());
}

#[test]
fn closing_after_a_failed_read_removes_the_robot() {
    let mut registry = Registry::new();
    let session = Session::open(1);
    session.receive(&mut registry, report("a", 100.0, 100.0), 10);
    assert_eq!(
        session.receive(&mut registry, Inbound::ReadFailed, 11),
        Step::Ended(Ending::LinkBroken)
    );
    session.close(&mut registry);
    assert!(!registry.contains(&"a".to_string()));
}

#[test]
fn closing_a_session_that_never_reported_changes_nothing() {
    let mut registry = Registry::new();
    let other = Session::open(1);
    other.receive(&mut registry, report("a", 100.0, 100.0), 10);
    let silent = Session::open(2);
    let bye = Inbound::Message(ClientMessage::Disconnect("a".to_string()));
    assert_eq!(silent.receive(&mut registry, bye, 11), Step::Ended(Ending::Disconnected));
    assert!(silent.close(&mut registry).is_empty());
    assert!(registry.contains(&"a".to_string()));
}

#[test]
fn a_report_under_a_new_identifier_adds_an_entry_and_removes_none() {
    let mut registry = Registry::new();
    let session = Session::open(1);
    session.receive(&mut registry, report("old", 100.0, 100.0), 10);
    session.receive(&mut registry, report("old", 101.0, 100.0), 11);
    let step = session.receive(&mut registry, report("new", 200.0, 100.0), 12);
    assert_eq!(step, Step::Accepted { created: true, handle: 1 });
    assert_eq!(ids(&registry), vec!["old", "new"]);
    let old = registry.get(&"old".to_string()).unwrap();
    assert_eq!((old.owner, old.outbound, old.trail.len(), old.last_seen), (1, 0, 2, 11));
    let new = registry.get(&"new".to_string()).unwrap();
    assert_eq!((new.owner, new.outbound, new.trail.len(), new.last_seen), (1, 1, 1, 12));
    // the former identifier is still served
    let step = session.receive(&mut registry, report("old", 102.0, 100.0), 13);
    assert_eq!(step, Step::Accepted { created: false, handle: 0 });
    assert_eq!(registry.get(&"old".to_string()).unwrap().trail.len(), 3);
}

#[test]
fn a_closed_session_leaves_nothing_behind() {
    let mut registry = Registry::new();
    let session = Session::open(1);
    session.receive(&mut registry, report("A", 100.0, 100.0), 10);
    session.receive(&mut registry, report("B", 300.0, 300.0), 11);
    assert_eq!(registry.len(), 2);
    assert_eq!(
        session.receive(&mut registry, Inbound::EndOfStream, 12),
        Step::Ended(Ending::EndOfStream)
    );
    assert_eq!(
        session.close(&mut registry),
        vec![
            Leaver { id: "A".to_string(), handle: 0 },
            Leaver { id: "B".to_string(), handle: 1 },
        ]
    );
    assert_eq!(registry.len(), 0);
    assert!(send_to_all(&registry, &ServerMessage::Resume).is_empty());
}

#[test]
fn disconnect_after_a_change_of_identifier_removes_every_entry_of_the_session() {
    let mut registry = Registry::new();
    let other = Session::open(2);
    other.receive(&mut registry, report("z", 400.0, 200.0), 9);
    let session = Session::open(1);
    session.receive(&mut registry, report("k", 100.0, 100.0), 10);
    session.receive(&mut registry, report("m", 110.0, 100.0), 11);
    let bye = Inbound::Message(ClientMessage::Disconnect("k".to_string()));
    assert_eq!(session.receive(&mut registry, bye, 12), Step::Ended(Ending::Disconnected));
    assert_eq!(session.close(&mut registry).len(), 2);
    assert!(!registry.contains(&"k".to_string()));
    assert!(!registry.contains(&"m".to_string()));
    let sent = send_to_all(&registry, &ServerMessage::SetSpeedLimit(s(80.0)));
    assert_eq!(sent.len(), 1);
    assert_eq!(sent[0].target, "z");
    assert_eq!(sent[0].handle, 0);
}

#[test]
fn closing_leaves_the_robots_of_other_sessions_alone() {
    let mut registry = Registry::new();
    let owner = Session::open(1);
    let guest = Session::open(2);
    owner.receive(&mut registry, report("a", 100.0, 100.0), 10);
    // another session reports under the same identifier: the robot is
    // updated in place and stays with the session that registered it
    let step = guest.receive(&mut registry, report("a", 105.0, 100.0), 11);
    assert_eq!(step, Step::Accepted { created: false, handle: 0 });
    assert_eq!(registry.get(&"a".to_string()).unwrap().owner, 1);
    assert_eq!(registry.get(&"a".to_string()).unwrap().trail.len(), 2);
    assert!(guest.close(&mut registry).is_empty());
    assert!(registry.contains(&"a".to_string()));
    assert_eq!(registry.get(&"a".to_string()).unwrap().last_seen, 11);
    assert_eq!(owner.close(&mut registry).len(), 1);
    assert_eq!(registry.len(), 0);
}

#[test]
fn a_session_that_reports_under_another_robot_keeps_its_own() {
    let mut registry = Registry::new();
    let first = Session::open(1);
    let second = Session::open(2);
    first.receive(&mut registry, report("a", 100.0, 100.0), 10);
    second.receive(&mut registry, report("b", 300.0, 100.0), 10);
    let step = second.receive(&mut registry, report("a", 101.0, 100.0), 11);
    assert_eq!(step, Step::Accepted { created: false, handle: 0 });
    assert_eq!(ids(&registry), vec!["a", "b"]);
    assert_eq!(second.close(&mut registry), vec![Leaver { id: "b".to_string(), handle: 1 }]);
    assert_eq!(ids(&registry), vec!["a"]);
}

#[test]
fn only_a_failed_read_ends_a_session_with_a_fault() {
    assert_eq!(Ending::LinkBroken.fault(), Some(Fault::LinkBroken));
    assert_eq!(Ending::Disconnected.fault(), None);
    assert_eq!(Ending::EndOfStream.fault(), None);
}
