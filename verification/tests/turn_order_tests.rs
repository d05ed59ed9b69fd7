use sala_rogue::components::WorldPos;
use sala_rogue::resources::{CacheMap, TurnOrder};

#[test]
fn full_rotation_returns_to_the_first_actor() {
    // after N distinct joins and N end-turns, the first-added actor holds
    // the turn again
    let n: u64 = 5;
    let mut turns = TurnOrder::new();
    for id in 0..n {
        turns.add_if_not_present(id);
    }
    assert_eq!(turns.current_holder(), Some(0));
    for _ in 0..n {
        turns.end_turn();
    }
    assert_eq!(turns.current_holder(), Some(0));
    assert_eq!(turns.len(), n as usize);
}

#[test]
fn end_turn_rotates_by_one() {
    let mut turns = TurnOrder::new();
    turns.add_if_not_present(7);
    turns.add_if_not_present(8);
    turns.add_if_not_present(9);
    assert_eq!(turns.current_holder(), Some(7));
    turns.end_turn();
    assert_eq!(turns.current_holder(), Some(8));
    turns.end_turn();
    assert_eq!(turns.current_holder(), Some(9));
}

#[test]
fn join_is_idempotent() {
    let mut turns = TurnOrder::new();
    turns.add_if_not_present(3);
    turns.add_if_not_present(3);
    turns.add_if_not_present(3);
    assert_eq!(turns.len(), 1);
}

#[test]
fn removing_the_holder_advances_without_an_end_turn() {
    let mut turns = TurnOrder::new();
    turns.add_if_not_present(1);
    turns.add_if_not_present(2);
    turns.add_if_not_present(3);
    turns.remove_from_turn_order(1);
    assert_eq!(turns.current_holder(), Some(2));
    assert_eq!(turns.len(), 2);
}

#[test]
fn removing_a_middle_actor_keeps_order() {
    let mut turns = TurnOrder::new();
    turns.add_if_not_present(1);
    turns.add_if_not_present(2);
    turns.add_if_not_present(3);
    turns.remove_from_turn_order(2);
    assert_eq!(turns.current_holder(), Some(1));
    turns.end_turn();
    assert_eq!(turns.current_holder(), Some(3));
}

#[test]
fn empty_queue_operations_are_no_ops() {
    let mut turns = TurnOrder::new();
    assert_eq!(turns.current_holder(), None);
    turns.end_turn();
    turns.remove_from_turn_order(42);
    assert_eq!(turns.current_holder(), None);
    // a single actor keeps the turn through an end-turn
    turns.add_if_not_present(5);
    turns.end_turn();
    assert_eq!(turns.current_holder(), Some(5));
}

#[test]
fn occupancy_index_move_semantics() {
    // after a move, the old tile is free and the new tile reports the actor
    let a = WorldPos { x: 1, y: 1 };
    let b = WorldPos { x: 2, y: 1 };
    let mut cache = CacheMap::new();
    cache.add_entity(a, 10);
    assert!(cache.has_any(a));
    assert_eq!(cache.get_any(a), Some(10));

    cache.update_entity(a, b, 10);
    assert!(!cache.has_any(a));
    assert_eq!(cache.get_any(a), None);
    assert_eq!(cache.get_any(b), Some(10));
}

#[test]
fn occupancy_index_remove_and_remove_anywhere() {
    let a = WorldPos { x: 0, y: 0 };
    let b = WorldPos { x: 4, y: 4 };
    let mut cache = CacheMap::new();
    cache.add_entity(a, 1);
    cache.add_entity(a, 2);
    cache.add_entity(b, 1);

    cache.remove_entity(a, 1);
    assert!(cache.has_any(a));
    assert_eq!(cache.get_any(a), Some(2));
    assert!(cache.has_any(b));

    cache.remove_entity_anywhere(2);
    assert!(!cache.has_any(a));
    assert!(cache.has_any(b));
    cache.remove_entity_anywhere(1);
    assert!(!cache.has_any(b));
}

#[test]
fn occupancy_index_add_is_idempotent() {
    let a = WorldPos { x: 3, y: 3 };
    let mut cache = CacheMap::new();
    cache.add_entity(a, 9);
    cache.add_entity(a, 9);
    cache.remove_entity(a, 9);
    assert!(!cache.has_any(a));
}
