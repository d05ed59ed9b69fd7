use sala_rogue::components::WorldPos;
use sala_rogue::dijkstra::{distance_at, distance_dijkstra_map};
use sala_rogue::map::{GameMap, TileType};

#[test]
fn corridor_distances_count_up_from_the_source() {
    // a straight unobstructed corridor of length 6
    let n = 6;
    let mut map = GameMap::new();
    for k in 0..=n {
        map.set_tile(WorldPos { x: k, y: 0 }, TileType::Floor);
    }
    let src = WorldPos { x: 0, y: 0 };
    let d = distance_dijkstra_map(&map, &vec![src], &Vec::new());
    for k in 0..=n {
        assert_eq!(distance_at(&d, WorldPos { x: k, y: 0 }), k);
    }
}

#[test]
fn source_distance_is_zero() {
    let mut map = GameMap::new();
    map.set_tile(WorldPos { x: 5, y: 5 }, TileType::Floor);
    let src = WorldPos { x: 5, y: 5 };
    let d = distance_dijkstra_map(&map, &vec![src], &Vec::new());
    assert_eq!(distance_at(&d, src), 0);
}

#[test]
fn unreachable_tiles_get_the_infinite_sentinel() {
    let mut map = GameMap::new();
    map.set_tile(WorldPos { x: 0, y: 0 }, TileType::Floor);
    // an isolated floor pocket two walls away
    map.set_tile(WorldPos { x: 5, y: 5 }, TileType::Floor);
    let d = distance_dijkstra_map(&map, &vec![WorldPos { x: 0, y: 0 }], &Vec::new());
    assert_eq!(distance_at(&d, WorldPos { x: 5, y: 5 }), i32::MAX);
    assert_eq!(distance_at(&d, WorldPos { x: 20, y: 20 }), i32::MAX);
}

#[test]
fn multiple_sources_take_the_nearest() {
    let mut map = GameMap::new();
    for k in 0..=8 {
        map.set_tile(WorldPos { x: k, y: 0 }, TileType::Floor);
    }
    let a = WorldPos { x: 0, y: 0 };
    let b = WorldPos { x: 8, y: 0 };
    let d = distance_dijkstra_map(&map, &vec![a, b], &Vec::new());
    assert_eq!(distance_at(&d, WorldPos { x: 1, y: 0 }), 1);
    assert_eq!(distance_at(&d, WorldPos { x: 7, y: 0 }), 1);
    assert_eq!(distance_at(&d, WorldPos { x: 4, y: 0 }), 4);
}

#[test]
fn blocked_positions_are_never_entered() {
    let mut map = GameMap::new();
    for k in 0..=4 {
        map.set_tile(WorldPos { x: k, y: 0 }, TileType::Floor);
    }
    let block = WorldPos { x: 2, y: 0 };
    let d = distance_dijkstra_map(&map, &vec![WorldPos { x: 0, y: 0 }], &vec![block]);
    assert_eq!(distance_at(&d, WorldPos { x: 1, y: 0 }), 1);
    assert_eq!(distance_at(&d, block), i32::MAX);
    assert_eq!(distance_at(&d, WorldPos { x: 3, y: 0 }), i32::MAX);
}
