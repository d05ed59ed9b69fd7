use sala_rogue::components::{Viewshed, WorldPos};
use sala_rogue::resources::{EventQueues, Log, LogInfo, Logs, PlayerInputState};

#[test]
fn manhattan_distance() {
    let a = WorldPos { x: 2, y: 3 };
    let b = WorldPos { x: -1, y: 5 };
    assert_eq!(a.dist(b), 5);
    assert_eq!(b.dist(a), 5);
    assert_eq!(a.dist(a), 0);
}

#[test]
fn fresh_viewshed_is_dirty_with_default_range() {
    let vs = Viewshed::new();
    assert!(vs.dirty);
    assert_eq!(vs.range, 7);
    assert!(vs.visible_tiles.is_empty());
}

#[test]
fn logs_keep_newest_first() {
    let mut logs = Logs::new();
    logs.push(LogInfo { log: Log { message: String::from("first") }, issue_round: 1 });
    logs.push(LogInfo { log: Log { message: String::from("second") }, issue_round: 2 });
    assert_eq!(logs.len(), 2);
    assert_eq!(logs.get(0).unwrap().log.message, "second");
    assert_eq!(logs.get(1).unwrap().log.message, "first");
    assert!(logs.get(2).is_none());
}

#[test]
fn event_queues_drain_completely() {
    let mut events = EventQueues::new();
    events.finished_turn.push(sala_rogue::components::EntityFinishedTurn { entity: 1 });
    events.dies.push(sala_rogue::components::EntityDies { entity: 1 });
    events.map_changed.push(sala_rogue::components::MapChangedEvent);
    events.clear();
    assert!(events.finished_turn.is_empty());
    assert!(events.dies.is_empty());
    assert!(events.map_changed.is_empty());
}

#[test]
fn default_input_has_nothing_pressed() {
    let input = PlayerInputState::default();
    assert!(!input.up_pressed);
    assert!(!input.down_pressed);
    assert!(!input.left_pressed);
    assert!(!input.right_pressed);
    assert!(!input.pass_pressed);
}
