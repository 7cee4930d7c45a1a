use cobot_hub::message::RobotState;
use cobot_hub::position::Position;
use cobot_hub::registry::{Leaver, Filing, Registry, Sighting, TRAIL_LENGTH};
use cobot_hub::scalar::Scalar;

fn s(v: f32) -> Scalar {
    Scalar::from_bits(v.to_bits())
}

fn robot(id: &str, x: f32, y: f32) -> RobotState {
    RobotState {
        id: id.to_string(),
        x: s(x),
        y: s(y),
        speed: s(50.0),
        angle: s(1.57),
        active: true,
        color: (10, 20, 30),
    }
}

#[test]
fn a_new_registry_is_empty() {
    let registry = Registry::new();
    assert_eq!(registry.len(), 0);
    assert!(registry.entries().is_empty());
    assert!(registry.snapshot().is_empty());
    assert!(!registry.contains(&"Cobot-1".to_string()));
    assert!(registry.get(&"Cobot-1".to_string()).is_none());
}

#[test]
fn first_report_registers_the_robot() {
    let mut registry = Registry::new();
    let filing = registry.upsert(robot("Cobot-123", 12.3, 44.0), 7, 1);
    assert_eq!(filing, Filing { created: true, handle: 0 });
    assert_eq!(registry.len(), 1);
    let entry = registry.get(&"Cobot-123".to_string()).unwrap();
    assert_eq!(entry.state, robot("Cobot-123", 12.3, 44.0));
    assert_eq!(entry.last_seen, 7);
    assert_eq!(entry.owner, 1);
    assert_eq!(entry.outbound, 0);
    assert_eq!(entry.trail.len(), 1);
    assert_eq!(entry.trail[0], Position::new(s(12.3), s(44.0)));
}

#[test]
fn second_report_updates_in_place() {
    let mut registry = Registry::new();
    assert_eq!(
        registry.upsert(robot("a", 100.0, 100.0), 1, 11),
        Filing { created: true, handle: 0 }
    );
    assert_eq!(
        registry.upsert(robot("b", 200.0, 100.0), 2, 22),
        Filing { created: true, handle: 1 }
    );
    let mut moved = robot("a", 101.0, 102.0);
    moved.active = false;
    // the report arrives on another session: the entry keeps owner and handle
    let filing = registry.upsert(moved.clone(), 3, 33);
    assert_eq!(filing, Filing { created: false, handle: 0 });
    assert_eq!(registry.len(), 2);
    assert_eq!(registry.entries()[0].state, moved);
    assert_eq!(registry.entries()[0].last_seen, 3);
    assert_eq!(registry.entries()[0].owner, 11);
    assert_eq!(registry.entries()[0].outbound, 0);
    assert_eq!(registry.entries()[0].trail.len(), 2);
    assert_eq!(registry.entries()[0].trail[0], Position::new(s(100.0), s(100.0)));
    assert_eq!(registry.entries()[0].trail[1], Position::new(s(101.0), s(102.0)));
    assert_eq!(registry.entries()[1].state, robot("b", 200.0, 100.0));
    assert_eq!(registry.entries()[1].last_seen, 2);
}

#[test]
fn identifiers_stay_unique_under_repeated_reports() {
    let mut registry = Registry::new();
    let names = ["a", "b", "a", "c", "b", "a", "c", "c", "d", "a"];
    for (time, name) in names.iter().enumerate() {
        registry.upsert(robot(name, time as f32, 50.0), time as u64, time as u64);
    }
    assert_eq!(registry.len(), 4);
    let ids: Vec<&str> = registry.entries().iter().map(|e| e.state.id.as_str()).collect();
    assert_eq!(ids, vec!["a", "b", "c", "d"]);
}

#[test]
fn trail_keeps_the_last_twenty_positions_oldest_first() {
    let mut registry = Registry::new();
    for k in 0..25u32 {
        registry.upsert(robot("a", k as f32, 2.0 * k as f32), k as u64, 1);
        let entry = registry.get(&"a".to_string()).unwrap();
        assert!(entry.trail.len() <= TRAIL_LENGTH);
        assert_eq!(entry.trail.len(), std::cmp::min(k as usize + 1, 20));
    }
    let entry = registry.get(&"a".to_string()).unwrap();
    assert_eq!(entry.trail.len(), 20);
    for (place, position) in entry.trail.iter().enumerate() {
        let k = (place + 5) as f32;
        assert_eq!(*position, Position::new(s(k), s(2.0 * k)));
    }
}

#[test]
fn trail_of_exactly_twenty_reports_drops_nothing() {
    let mut registry = Registry::new();
    for k in 0..20u32 {
        registry.upsert(robot("a", k as f32, 0.0), k as u64, 1);
    }
    let entry = registry.get(&"a".to_string()).unwrap();
    assert_eq!(entry.trail.len(), 20);
    assert_eq!(entry.trail[0], Position::new(s(0.0), s(0.0)));
    assert_eq!(entry.trail[19], Position::new(s(19.0), s(0.0)));
}

#[test]
fn remove_deletes_and_is_idempotent() {
    let mut registry = Registry::new();
    registry.upsert(robot("a", 100.0, 100.0), 1, 1);
    registry.upsert(robot("b", 200.0, 100.0), 1, 2);
    registry.upsert(robot("c", 300.0, 100.0), 1, 3);
    assert!(registry.remove(&"b".to_string()));
    assert_eq!(registry.len(), 2);
    assert!(!registry.contains(&"b".to_string()));
    assert!(registry.contains(&"a".to_string()));
    assert!(registry.contains(&"c".to_string()));
    assert!(!registry.remove(&"b".to_string()));
    assert_eq!(registry.len(), 2);
    assert!(!registry.remove(&"never".to_string()));
    assert_eq!(registry.entries()[0].state.id, "a");
    assert_eq!(registry.entries()[1].state.id, "c");
}

#[test]
fn a_robot_that_returns_starts_a_new_trail() {
    let mut registry = Registry::new();
    registry.upsert(robot("a", 100.0, 100.0), 1, 1);
    registry.upsert(robot("a", 110.0, 100.0), 2, 1);
    registry.remove(&"a".to_string());
    assert!(registry.upsert(robot("a", 120.0, 100.0), 3, 9).created);
    let entry = registry.get(&"a".to_string()).unwrap();
    assert_eq!(entry.trail.len(), 1);
    assert_eq!(entry.owner, 9);
}

#[test]
fn snapshot_lists_identifier_and_position_in_order() {
    let mut registry = Registry::new();
    registry.upsert(robot("a", 100.0, 150.0), 1, 1);
    registry.upsert(robot("b", 200.0, 250.0), 1, 2);
    registry.upsert(robot("a", 101.0, 151.0), 2, 1);
    let snapshot = registry.snapshot();
    assert_eq!(
        snapshot,
        vec![
            Sighting { id: "a".to_string(), position: Position::new(s(101.0), s(151.0)) },
            Sighting { id: "b".to_string(), position: Position::new(s(200.0), s(250.0)) },
        ]
    );
}

#[test]
fn cosmetic_fields_are_kept_as_reported() {
    let mut registry = Registry::new();
    let mut state = robot("a", 100.0, 100.0);
    state.color = (255, 0, 128);
    state.angle = s(-3.25);
    state.speed = s(f32::NAN);
    registry.upsert(state.clone(), 1, 1);
    assert_eq!(registry.get(&"a".to_string()).unwrap().state, state);
}

#[test]
fn halting_marks_the_robot_and_tells_its_handle() {
    let mut registry = Registry::new();
    registry.upsert(robot("a", 100.0, 100.0), 1, 11);
    registry.upsert(robot("b", 200.0, 100.0), 1, 22);
    assert_eq!(registry.halt(&"b".to_string()), Some(1));
    assert!(!registry.get(&"b".to_string()).unwrap().state.active);
    assert!(registry.get(&"a".to_string()).unwrap().state.active);
    assert_eq!(registry.halt(&"b".to_string()), None);
    assert_eq!(registry.halt(&"nobody".to_string()), None);
    assert_eq!(registry.len(), 2);
    let mut expected = robot("b", 200.0, 100.0);
    expected.active = false;
    assert_eq!(registry.get(&"b".to_string()).unwrap().state, expected);
}

#[test]
fn a_report_adds_one_entry_or_none_and_removes_none() {
    let mut registry = Registry::new();
    let names = ["a", "b", "a", "c", "b", "d", "a"];
    let mut known: Vec<&str> = Vec::new();
    for (time, name) in names.iter().enumerate() {
        let before = registry.len();
        // every report on the same session
        let filing = registry.upsert(robot(name, 100.0 + time as f32, 50.0), time as u64, 7);
        assert_eq!(filing.created, !known.contains(name));
        assert_eq!(registry.len(), before + if filing.created { 1 } else { 0 });
        if filing.created {
            known.push(name);
        }
        for id in &known {
            assert!(registry.contains(&id.to_string()));
        }
    }
    let ids: Vec<&str> = registry.entries().iter().map(|e| e.state.id.as_str()).collect();
    assert_eq!(ids, vec!["a", "b", "c", "d"]);
}

#[test]
fn a_trail_grows_while_its_session_reports_under_other_identifiers() {
    let mut registry = Registry::new();
    registry.upsert(robot("k", 1.0, 1.0), 1, 7);
    registry.upsert(robot("j", 50.0, 50.0), 2, 7);
    registry.upsert(robot("k", 2.0, 2.0), 3, 7);
    let trail = &registry.get(&"k".to_string()).unwrap().trail;
    assert_eq!(trail.len(), 2);
    assert_eq!(trail[0], Position::new(s(1.0), s(1.0)));
    assert_eq!(trail[1], Position::new(s(2.0), s(2.0)));
    assert_eq!(registry.get(&"j".to_string()).unwrap().trail.len(), 1);
}

#[test]
fn a_trail_keeps_the_last_twenty_among_interleaved_reports() {
    let mut registry = Registry::new();
    for k in 0..30u32 {
        registry.upsert(robot("a", k as f32, 0.0), k as u64, 1);
        registry.upsert(robot("b", 0.0, k as f32), k as u64, 1 + (k % 2) as u64);
    }
    let a = registry.get(&"a".to_string()).unwrap();
    assert_eq!(a.trail.len(), 20);
    for (place, position) in a.trail.iter().enumerate() {
        assert_eq!(*position, Position::new(s((place + 10) as f32), s(0.0)));
    }
}

#[test]
fn no_two_entries_share_a_handle() {
    let mut registry = Registry::new();
    let names = ["a", "b", "c", "a", "d", "b", "e", "a"];
    for (time, name) in names.iter().enumerate() {
        registry.upsert(robot(name, 100.0 + time as f32, 50.0), time as u64, (time % 3) as u64);
        if time == 4 {
            registry.release(1);
        }
        let mut handles: Vec<u64> = registry.entries().iter().map(|e| e.outbound).collect();
        let count = handles.len();
        handles.sort();
        handles.dedup();
        assert_eq!(handles.len(), count);
    }
}

#[test]
fn a_new_entry_gets_the_least_handle_that_is_free() {
    let mut registry = Registry::new();
    assert_eq!(registry.upsert(robot("a", 100.0, 100.0), 1, 5).handle, 0);
    assert_eq!(registry.upsert(robot("b", 200.0, 100.0), 1, 5).handle, 1);
    assert_eq!(registry.upsert(robot("c", 300.0, 100.0), 1, 6).handle, 2);
    registry.remove(&"b".to_string());
    assert_eq!(registry.upsert(robot("d", 400.0, 100.0), 1, 6).handle, 1);
    assert_eq!(registry.upsert(robot("e", 500.0, 100.0), 1, 6).handle, 3);
}

#[test]
fn release_removes_every_robot_of_one_session_only() {
    let mut registry = Registry::new();
    registry.upsert(robot("a", 100.0, 100.0), 1, 11);
    registry.upsert(robot("b", 200.0, 100.0), 1, 22);
    registry.upsert(robot("c", 300.0, 100.0), 1, 11);
    registry.upsert(robot("d", 400.0, 100.0), 1, 33);
    assert_eq!(
        registry.release(11),
        vec![
            Leaver { id: "a".to_string(), handle: 0 },
            Leaver { id: "c".to_string(), handle: 2 },
        ]
    );
    assert!(registry.release(11).is_empty());
    assert!(registry.release(99).is_empty());
    let ids: Vec<&str> = registry.entries().iter().map(|e| e.state.id.as_str()).collect();
    assert_eq!(ids, vec!["b", "d"]);
    assert_eq!(registry.get(&"b".to_string()).unwrap().state, robot("b", 200.0, 100.0));
    assert_eq!(registry.get(&"b".to_string()).unwrap().outbound, 1);
    assert_eq!(registry.get(&"d".to_string()).unwrap().owner, 33);
}
