use sala_rogue::components::{CombatStats, Viewshed, WorldPos};
use sala_rogue::dijkstra::distance_dijkstra_map;
use sala_rogue::map::{GameMap, TileType};
use sala_rogue::systems::{
    assign_block_map_indexing, assign_combat_map_indexing, assign_turn_order,
    clear_indexing_requests, clear_turn_order_requests, death_system, handle_input, make_map,
    monster_ai, process_combat_event, process_suffers_damage_event, remove_dead_from_maps,
    run_cycle, spawn, Actor, GameState,
};

fn floor_rect(map: &mut GameMap, x0: i32, x1: i32, y0: i32, y1: i32) {
    for x in x0..=x1 {
        for y in y0..=y1 {
            map.set_tile(WorldPos { x, y }, TileType::Floor);
        }
    }
}

fn actor(id: u64, x: i32, y: i32, player: bool, stats: Option<CombatStats>) -> Actor {
    Actor {
        id,
        pos: WorldPos { x, y },
        is_player: player,
        monster_ai: !player,
        blocks_movement: true,
        stats,
        viewshed: Some(Viewshed::new()),
        wants_turn_order: true,
        wants_map_indexing: true,
    }
}

fn register(state: &mut GameState) {
    assign_turn_order(state);
    clear_turn_order_requests(state);
    assign_block_map_indexing(state);
    assign_combat_map_indexing(state);
    clear_indexing_requests(state);
}

#[test]
fn moving_into_a_monster_attacks_instead() {
    // player at (5,5) moves right into a monster with defense 2 while the
    // player's power is 5: exactly one melee attack, then one damage event
    // of 3, and no movement
    let mut map = GameMap::new();
    floor_rect(&mut map, 3, 8, 3, 8);
    let mut state = GameState::new(map);
    assert!(spawn(
        &mut state,
        actor(0, 5, 5, true, Some(CombatStats { max_hp: 30, hp: 30, defense: 2, power: 5 })),
    ));
    assert!(spawn(
        &mut state,
        actor(1, 6, 5, false, Some(CombatStats { max_hp: 16, hp: 16, defense: 2, power: 3 })),
    ));
    register(&mut state);

    state.input.right_pressed = true;
    handle_input(&mut state);

    assert_eq!(state.events.finished_turn.len(), 1);
    assert_eq!(state.events.finished_turn[0].entity, 0);
    assert_eq!(state.events.melee.len(), 1);
    assert_eq!(state.events.melee[0].attacker, 0);
    assert_eq!(state.events.melee[0].defender, 1);
    assert_eq!(state.events.moved.len(), 0);
    assert_eq!(state.actors[0].pos, WorldPos { x: 5, y: 5 });

    process_combat_event(&mut state);
    assert_eq!(state.events.suffers.len(), 1);
    assert_eq!(state.events.suffers[0].entity, 1);
    assert_eq!(state.events.suffers[0].damage, 3);

    process_suffers_damage_event(&mut state);
    assert_eq!(state.actors[1].stats.unwrap().hp, 13);
    assert_eq!(state.events.dies.len(), 0);
}

#[test]
fn player_moves_onto_free_floor_and_distance_field_follows() {
    let mut map = GameMap::new();
    floor_rect(&mut map, 3, 8, 3, 8);
    let mut state = GameState::new(map);
    assert!(spawn(
        &mut state,
        actor(0, 5, 5, true, Some(CombatStats { max_hp: 30, hp: 30, defense: 2, power: 5 })),
    ));
    register(&mut state);

    state.input.right_pressed = true;
    handle_input(&mut state);

    assert_eq!(state.actors[0].pos, WorldPos { x: 6, y: 5 });
    assert_eq!(state.events.moved.len(), 1);
    assert_eq!(state.events.moved[0].old_pos, WorldPos { x: 5, y: 5 });
    assert_eq!(state.events.moved[0].new_pos, WorldPos { x: 6, y: 5 });
    // the distance field was recomputed from the new tile
    assert_eq!(
        sala_rogue::dijkstra::distance_at(&state.player_map.0, WorldPos { x: 6, y: 5 }),
        0
    );
    assert_eq!(
        sala_rogue::dijkstra::distance_at(&state.player_map.0, WorldPos { x: 3, y: 5 }),
        3
    );
}

#[test]
fn blocked_move_is_a_no_action_outcome() {
    let mut map = GameMap::new();
    floor_rect(&mut map, 5, 5, 5, 5);
    let mut state = GameState::new(map);
    assert!(spawn(
        &mut state,
        actor(0, 5, 5, true, Some(CombatStats { max_hp: 30, hp: 30, defense: 2, power: 5 })),
    ));
    register(&mut state);

    state.input.right_pressed = true;
    handle_input(&mut state);

    assert!(state.no_action.0);
    assert_eq!(state.events.finished_turn.len(), 0);
    assert_eq!(state.events.moved.len(), 0);
    assert_eq!(state.actors[0].pos, WorldPos { x: 5, y: 5 });
}

#[test]
fn monster_steps_to_the_lowest_adjacent_field_value() {
    // corridor from (0,0) to (8,0); the monster at field value 4 sits
    // between neighbors at values 3 and 5, and must take the 3
    let mut map = GameMap::new();
    floor_rect(&mut map, 0, 8, 0, 0);
    let mut state = GameState::new(map);
    let player_pos = WorldPos { x: 1, y: 0 };
    assert!(spawn(
        &mut state,
        actor(0, 1, 0, true, Some(CombatStats { max_hp: 30, hp: 30, defense: 2, power: 5 })),
    ));
    let mut m = actor(1, 5, 0, false, Some(CombatStats { max_hp: 16, hp: 16, defense: 2, power: 3 }));
    // the monster currently sees the player
    m.viewshed = Some(Viewshed {
        visible_tiles: vec![player_pos, WorldPos { x: 5, y: 0 }],
        range: 7,
        dirty: false,
    });
    assert!(spawn(&mut state, m));
    register(&mut state);
    state.player_map.0 = distance_dijkstra_map(&state.map, &vec![player_pos], &Vec::new());

    // make it the monster's turn
    state.turn_order.end_turn();
    monster_ai(&mut state);

    assert_eq!(state.events.finished_turn.len(), 1);
    assert_eq!(state.events.finished_turn[0].entity, 1);
    assert_eq!(state.events.moved.len(), 1);
    assert_eq!(state.events.moved[0].old_pos, WorldPos { x: 5, y: 0 });
    assert_eq!(state.events.moved[0].new_pos, WorldPos { x: 4, y: 0 });
    assert_eq!(state.actors[1].pos, WorldPos { x: 4, y: 0 });
}

#[test]
fn monster_that_cannot_see_the_player_stays_put() {
    let mut map = GameMap::new();
    floor_rect(&mut map, 0, 8, 0, 0);
    let mut state = GameState::new(map);
    assert!(spawn(
        &mut state,
        actor(0, 1, 0, true, Some(CombatStats { max_hp: 30, hp: 30, defense: 2, power: 5 })),
    ));
    let mut m = actor(1, 5, 0, false, Some(CombatStats { max_hp: 16, hp: 16, defense: 2, power: 3 }));
    m.viewshed = Some(Viewshed { visible_tiles: vec![], range: 7, dirty: false });
    assert!(spawn(&mut state, m));
    register(&mut state);
    state.player_map.0 =
        distance_dijkstra_map(&state.map, &vec![WorldPos { x: 1, y: 0 }], &Vec::new());

    state.turn_order.end_turn();
    monster_ai(&mut state);

    // the monster still finishes its turn, but neither moves nor attacks
    assert_eq!(state.events.finished_turn.len(), 1);
    assert_eq!(state.events.moved.len(), 0);
    assert_eq!(state.events.melee.len(), 0);
    assert_eq!(state.actors[1].pos, WorldPos { x: 5, y: 0 });
}

#[test]
fn adjacent_monster_attacks_the_player() {
    let mut map = GameMap::new();
    floor_rect(&mut map, 0, 8, 0, 0);
    let mut state = GameState::new(map);
    let player_pos = WorldPos { x: 4, y: 0 };
    assert!(spawn(
        &mut state,
        actor(0, 4, 0, true, Some(CombatStats { max_hp: 30, hp: 30, defense: 2, power: 5 })),
    ));
    let mut m = actor(1, 5, 0, false, Some(CombatStats { max_hp: 16, hp: 16, defense: 2, power: 3 }));
    m.viewshed = Some(Viewshed { visible_tiles: vec![player_pos], range: 7, dirty: false });
    assert!(spawn(&mut state, m));
    register(&mut state);
    state.player_map.0 = distance_dijkstra_map(&state.map, &vec![player_pos], &Vec::new());

    state.turn_order.end_turn();
    monster_ai(&mut state);

    assert_eq!(state.events.melee.len(), 1);
    assert_eq!(state.events.melee[0].attacker, 1);
    assert_eq!(state.events.melee[0].defender, 0);
    assert_eq!(state.events.moved.len(), 0);
}

#[test]
fn death_removes_the_actor_everywhere() {
    let mut map = GameMap::new();
    floor_rect(&mut map, 3, 8, 3, 8);
    let mut state = GameState::new(map);
    assert!(spawn(
        &mut state,
        actor(0, 5, 5, true, Some(CombatStats { max_hp: 30, hp: 30, defense: 2, power: 5 })),
    ));
    // a monster with one hit point left
    assert!(spawn(
        &mut state,
        actor(1, 6, 5, false, Some(CombatStats { max_hp: 16, hp: 1, defense: 2, power: 3 })),
    ));
    register(&mut state);

    state.input.right_pressed = true;
    handle_input(&mut state);
    process_combat_event(&mut state);
    process_suffers_damage_event(&mut state);

    assert_eq!(state.events.dies.len(), 1);
    assert_eq!(state.events.dies[0].entity, 1);

    death_system(&mut state);
    remove_dead_from_maps(&mut state);

    assert_eq!(state.actors.len(), 1);
    assert_eq!(state.actors[0].id, 0);
    assert!(!state.blocked.0.has_any(WorldPos { x: 6, y: 5 }));
    assert!(!state.combat_tiles.0.has_any(WorldPos { x: 6, y: 5 }));
    assert_eq!(state.turn_order.len(), 1);
    assert_eq!(state.turn_order.current_holder(), Some(0));
}

#[test]
fn generated_world_runs_cycles() {
    let (mut state, rooms) = make_map();
    assert!(rooms.len() >= 1);
    assert!(state.actors[0].is_player);
    let stats = state.actors[0].stats.unwrap();
    assert_eq!((stats.max_hp, stats.hp, stats.defense, stats.power), (30, 30, 2, 5));
    // the player stands on floor at the center of the first room
    assert!(state.map.passable(state.actors[0].pos));
    assert_eq!(
        (state.actors[0].pos.x, state.actors[0].pos.y),
        rooms[0].center(),
    );

    // a pass turn runs a full cycle and drains all events
    state.input.pass_pressed = true;
    let outcome = run_cycle(&mut state);
    assert_eq!(state.events.finished_turn.len(), 0);
    // the pass was an action, so the frame need not stop early
    assert!(!outcome.no_action);
    // after the player's viewshed was computed, its own tile is seen
    let pos = state.actors[0].pos;
    for t in state.map.tiles() {
        if t.world_pos == pos {
            assert!(t.seen && t.visible);
        }
    }
}
