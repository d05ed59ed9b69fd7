use sala_rogue::components::WorldPos;
use sala_rogue::fov::refresh_area;
use sala_rogue::map::{GameMap, TileType};

fn open_room(x0: i32, x1: i32, y0: i32, y1: i32) -> GameMap {
    let mut map = GameMap::new();
    for x in x0..=x1 {
        for y in y0..=y1 {
            map.set_tile(WorldPos { x, y }, TileType::Floor);
        }
    }
    map
}

fn sorted(mut v: Vec<(i32, i32)>) -> Vec<(i32, i32)> {
    v.sort();
    v.dedup();
    v
}

#[test]
fn clear_room_sees_exactly_the_disc() {
    // a room big enough that no wall falls within the vision radius
    let map = open_room(-10, 10, -10, 10);
    let hero = WorldPos { x: 0, y: 0 };
    let range = 4;
    let visible = refresh_area(hero, range, &map);

    let mut expected: Vec<(i32, i32)> = Vec::new();
    for x in -range..=range {
        for y in -range..=range {
            if x * x + y * y <= range * range {
                expected.push((x, y));
            }
        }
    }
    let got: Vec<(i32, i32)> = visible.iter().map(|p| (p.x, p.y)).collect();
    assert_eq!(sorted(got), sorted(expected));
}

#[test]
fn radius_zero_sees_only_the_origin() {
    let map = open_room(0, 8, 0, 8);
    let hero = WorldPos { x: 4, y: 4 };
    let visible = refresh_area(hero, 0, &map);
    let got: Vec<(i32, i32)> = visible.iter().map(|p| (p.x, p.y)).collect();
    assert_eq!(sorted(got), vec![(4, 4)]);
}

#[test]
fn origin_visible_even_on_a_wall() {
    let map = GameMap::new();
    let hero = WorldPos { x: 3, y: 3 };
    let visible = refresh_area(hero, 5, &map);
    assert!(visible.iter().any(|p| *p == hero));
}

#[test]
fn corridor_wall_blocks_tiles_beyond_it() {
    // a one-tile-wide corridor to the right, walled at x == 2
    let mut map = open_room(0, 8, 0, 0);
    map.set_tile(WorldPos { x: 2, y: 0 }, TileType::Wall);
    let hero = WorldPos { x: 0, y: 0 };
    let visible = refresh_area(hero, 6, &map);

    let has = |x: i32, y: i32| visible.iter().any(|p| p.x == x && p.y == y);
    // the wall itself is visible, tiles strictly beyond it along the ray
    // are not
    assert!(has(0, 0));
    assert!(has(1, 0));
    assert!(has(2, 0));
    assert!(!has(3, 0));
    assert!(!has(4, 0));
}

#[test]
fn near_wall_shadows_far_tiles_but_not_side_rays() {
    let mut map = open_room(-6, 6, -6, 6);
    // one blocking wall tile right beside the viewer
    map.set_tile(WorldPos { x: 1, y: 0 }, TileType::Wall);
    let hero = WorldPos { x: 0, y: 0 };
    let visible = refresh_area(hero, 4, &map);

    let has = |x: i32, y: i32| visible.iter().any(|p| p.x == x && p.y == y);
    assert!(has(1, 0));
    // straight behind the wall is shadowed
    assert!(!has(2, 0));
    assert!(!has(3, 0));
    // rays that do not pass through the wall still reach out
    assert!(has(0, 3));
    assert!(has(0, -3));
    assert!(has(-3, 0));
    assert!(has(2, 2));
}

fn rotate90(p: (i32, i32)) -> (i32, i32) {
    // quarter turn counter-clockwise about the origin
    (-p.1, p.0)
}

#[test]
fn visibility_commutes_with_quarter_turns() {
    // an obstacle layout, rotated a quarter turn, yields the rotated
    // visible set
    let obstacles: Vec<(i32, i32)> = vec![(2, 0), (1, 2), (-1, -2), (0, 3), (3, 2)];
    let range = 4;

    let mut base = open_room(-8, 8, -8, 8);
    for &(x, y) in &obstacles {
        base.set_tile(WorldPos { x, y }, TileType::Wall);
    }
    let mut turned = open_room(-8, 8, -8, 8);
    for &o in &obstacles {
        let (x, y) = rotate90(o);
        turned.set_tile(WorldPos { x, y }, TileType::Wall);
    }

    let hero = WorldPos { x: 0, y: 0 };
    let vis_base: Vec<(i32, i32)> =
        refresh_area(hero, range, &base).iter().map(|p| (p.x, p.y)).collect();
    let vis_turned: Vec<(i32, i32)> =
        refresh_area(hero, range, &turned).iter().map(|p| (p.x, p.y)).collect();

    let rotated_base: Vec<(i32, i32)> = vis_base.iter().map(|&p| rotate90(p)).collect();
    assert_eq!(sorted(rotated_base), sorted(vis_turned));
}
