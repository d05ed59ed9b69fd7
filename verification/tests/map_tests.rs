use sala_rogue::components::WorldPos;
use sala_rogue::map::{make_new_map, BoundingBox, GameMap, TileType};

#[test]
fn tile_type_blocking() {
    assert!(TileType::Wall.blocks_visibility());
    assert!(TileType::Wall.blocks_movement());
    assert!(!TileType::Floor.blocks_visibility());
    assert!(!TileType::Floor.blocks_movement());
}

#[test]
fn bounding_box_empty_and_dims() {
    let bb = BoundingBox::make_empty();
    assert!(bb.empty());
    assert_eq!(bb.width(), 0);
    assert_eq!(bb.height(), 0);

    let bb = BoundingBox { x_min: 2, x_max: 4, y_min: -1, y_max: 0 };
    assert!(!bb.empty());
    assert_eq!(bb.width(), 3);
    assert_eq!(bb.height(), 2);
    assert_eq!(bb.center(), (3, 0));
}

#[test]
fn bounding_box_include_pt() {
    let mut bb = BoundingBox::make_empty();
    bb.include_pt(WorldPos { x: 3, y: 7 });
    assert_eq!((bb.x_min, bb.x_max, bb.y_min, bb.y_max), (3, 3, 7, 7));
    bb.include_pt(WorldPos { x: -2, y: 9 });
    assert_eq!((bb.x_min, bb.x_max, bb.y_min, bb.y_max), (-2, 3, 7, 9));
}

#[test]
fn bounding_box_intersects_with_buffer() {
    let a = BoundingBox { x_min: 0, x_max: 2, y_min: 0, y_max: 2 };
    let b = BoundingBox { x_min: 3, x_max: 5, y_min: 0, y_max: 2 };
    // they share no tile, but with a required buffer of one they are too close
    assert!(!a.intersects(&b, 0));
    assert!(a.intersects(&b, 1));
    let c = BoundingBox { x_min: 4, x_max: 6, y_min: 0, y_max: 2 };
    assert!(!a.intersects(&c, 1));
    assert!(a.intersects(&c, 2));
    let empty = BoundingBox::make_empty();
    assert!(!a.intersects(&empty, 5));
}

#[test]
fn map_default_is_wall_and_set_tile_backfills() {
    let mut map = GameMap::new();
    let p = WorldPos { x: 10, y: 10 };
    assert_eq!(map.get_tile(p), TileType::Wall);
    assert!(!map.passable(p));

    map.set_tile(p, TileType::Floor);
    assert_eq!(map.get_tile(p), TileType::Floor);
    assert!(map.passable(p));

    // the eight neighbors were back-filled with walls, and all nine cells
    // now count as placed
    let tiles = map.tiles();
    assert_eq!(tiles.len(), 9);
    for t in &tiles {
        if t.world_pos == p {
            assert_eq!(t.tile_type, TileType::Floor);
        } else {
            assert_eq!(t.tile_type, TileType::Wall);
        }
        assert!(!t.seen);
        assert!(!t.visible);
    }
    let bb = map.bounding_box();
    assert_eq!((bb.x_min, bb.x_max, bb.y_min, bb.y_max), (9, 11, 9, 11));
}

#[test]
fn map_adjacent_filters_walls() {
    let mut map = GameMap::new();
    let c = WorldPos { x: 0, y: 0 };
    map.set_tile(c, TileType::Floor);
    map.set_tile(WorldPos { x: 1, y: 0 }, TileType::Floor);
    map.set_tile(WorldPos { x: 0, y: 1 }, TileType::Floor);
    let adj = map.adjacent(c);
    // enumeration order is below, left, above, right
    assert_eq!(adj, vec![WorldPos { x: 0, y: 1 }, WorldPos { x: 1, y: 0 }]);
}

#[test]
fn map_visibility_sets() {
    let mut map = GameMap::new();
    let a = WorldPos { x: 1, y: 1 };
    let b = WorldPos { x: 2, y: 1 };
    map.set_tile(a, TileType::Floor);
    map.set_tile(b, TileType::Floor);

    map.mark_visible(a);
    let ta = tile_at(&map, a);
    assert!(ta.visible && ta.seen);

    // replacing the visible set keeps previously seen tiles seen
    map.set_visible_exact(&vec![b]);
    let ta = tile_at(&map, a);
    let tb = tile_at(&map, b);
    assert!(!ta.visible && ta.seen);
    assert!(tb.visible && tb.seen);
}

fn tile_at(map: &GameMap, p: WorldPos) -> sala_rogue::map::TileData {
    for t in map.tiles() {
        if t.world_pos == p {
            return t;
        }
    }
    panic!("tile not placed");
}

#[test]
fn generated_map_has_rooms_carved_inside_border() {
    let (map, rooms) = make_new_map();
    assert!(rooms.len() >= 1);
    assert!(rooms.len() <= 30);
    for (i, r) in rooms.iter().enumerate() {
        assert!(!r.empty());
        assert!(1 <= r.x_min && r.x_max <= 39);
        assert!(1 <= r.y_min && r.y_max <= 39);
        // every room tile is floor
        for x in r.x_min..=r.x_max {
            for y in r.y_min..=r.y_max {
                assert_eq!(map.get_tile(WorldPos { x, y }), TileType::Floor);
            }
        }
        // rooms keep a one-tile buffer from each other
        for (j, r2) in rooms.iter().enumerate() {
            if i != j {
                assert!(!r.intersects(r2, 1));
            }
        }
    }
    // the border stays solid wall
    for v in 0..41 {
        assert_eq!(map.get_tile(WorldPos { x: 0, y: v }), TileType::Wall);
        assert_eq!(map.get_tile(WorldPos { x: 40, y: v }), TileType::Wall);
        assert_eq!(map.get_tile(WorldPos { x: v, y: 0 }), TileType::Wall);
        assert_eq!(map.get_tile(WorldPos { x: v, y: 40 }), TileType::Wall);
    }
}
