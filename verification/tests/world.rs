use tower_core::map::TileMap;
use tower_core::position::Position;
use tower_core::raycast::Raycast;
use tower_core::tower::Tower;

#[test]
fn test_map_from_str() {
    let map = TileMap::from_str(
        "test_map",
        5,
        5,
        "
        | | | | | |
        | | | | | |
        | |W| | | |
        | | | |W| |
        | | | | | |
            ",
    );
    assert!(!map.grid.get(&Position { x: 1, y: 2 }).unwrap().walkable);
    assert!(map.grid.get(&Position { x: 2, y: 2 }).unwrap().walkable);
    assert!(!map.grid.get(&Position { x: 3, y: 1 }).unwrap().walkable);
}

#[test]
fn test_get_visible() {
    let map = TileMap::from_str(
        "test_map",
        5,
        5,
        "
        | | | | | |
        | |W|W|W| |
        | |W| | | |
        | |W|W|W| |
        | | | | | |
            ",
    );
    let visible = map.get_visible(&Position::new(2, 2));
    assert_eq!(visible.len(), 12);
}

#[test]
fn test_raycast() {
    let level_name = "test_level";
    let map_name = "test_map";
    let mut tower = Tower::new();
    tower.insert_map_from_str(
        level_name,
        map_name,
        5,
        5,
        "
        | | | | | |
        | | | | | |
        | |W| | | |
        | | | |W| |
        | | | | | |
            ",
    );
    let tests: Vec<(Position, Position, bool)> = vec![
        // Horizontal Positive
        (Position::new(0, 0), Position::new(4, 0), true),
        (Position::new(0, 1), Position::new(4, 1), false),
        // Horizontal Negative
        (Position::new(4, 0), Position::new(2, 0), true),
        (Position::new(4, 1), Position::new(2, 1), false),
        // Vertical Positive
        (Position::new(0, 0), Position::new(0, 4), true),
        (Position::new(1, 0), Position::new(1, 4), false),
        // Vertical Negative
        (Position::new(0, 4), Position::new(0, 1), true),
        (Position::new(1, 4), Position::new(1, 1), false),
        // Diagonal Positive
        (Position::new(0, 0), Position::new(4, 4), true),
        (Position::new(0, 1), Position::new(3, 4), false),
        // Diagonal Negative
        (Position::new(1, 4), Position::new(4, 1), true),
        (Position::new(0, 4), Position::new(4, 0), false),
    ];
    for (start, end, result) in tests {
        let mut rc = Raycast::new(start, end);
        let mut visible: Vec<Position> = Vec::new();
        while let Some(pos) = rc.next() {
            visible.push(pos);
            if !tower
                .get_tile(level_name, map_name, &pos)
                .unwrap()
                .transparent
            {
                break;
            }
        }
        assert_eq!(visible.contains(&end), result);
    }
}

#[test]
fn test_visible_contains_origin_and_ring() {
    let map = TileMap::from_str(
        "pocket",
        5,
        5,
        "
        | | | | | |
        | |W|W|W| |
        | |W| | | |
        | |W|W|W| |
        | | | | | |
            ",
    );
    let visible = map.get_visible(&Position::new(2, 2));
    // the origin and the full ring around it
    for y in 1..=3 {
        for x in 1..=3 {
            assert!(visible.contains(&Position::new(x, y)), "({x},{y}) missing");
        }
    }
    // the walls block everything further left
    assert!(!visible.contains(&Position::new(0, 2)));
}

#[test]
fn test_open_map_fully_visible() {
    let map = TileMap::new("open", 3, 3);
    let visible = map.get_visible(&Position::new(1, 1));
    assert_eq!(visible.len(), 9);
}

#[test]
fn test_tower_lookup_and_defaults() {
    let mut tower = Tower::new();
    assert!(tower
        .get_tile("nowhere", "nothing", &Position::new(0, 0))
        .is_none());
    assert_eq!(tower.get_visible("nowhere", "nothing", &Position::new(0, 0)).len(), 0);
    tower.insert_empty_map("level1", "map1", 4, 4);
    let t = tower.get_tile("level1", "map1", &Position::new(3, 3)).unwrap();
    assert!(t.walkable && t.transparent && t.entities.is_empty());
    // out of bounds is absent, not an error
    assert!(tower.get_tile("level1", "map1", &Position::new(4, 0)).is_none());
    assert!(tower.get_tile("level1", "map1", &Position::new(-1, 0)).is_none());
    // replacing a map works like a keyed insert
    tower.insert_map_from_str("level1", "map1", 2, 2, "|W|W|\n|W|W|");
    assert!(!tower.get_tile("level1", "map1", &Position::new(0, 0)).unwrap().walkable);
}

#[test]
fn test_map_parsing_permissive() {
    // malformed rows and unknown characters fall back to the default tile
    let map = TileMap::from_str(
        "odd",
        3,
        2,
        "
        stray text without pipes
        |W|x| |
        ||W|
            ",
    );
    // bottom row: every leading pipe is stripped, so `W` is the first token
    assert!(!map.grid.get(&Position::new(0, 0)).unwrap().walkable);
    assert!(map.grid.get(&Position::new(1, 0)).unwrap().walkable);
    // top row: wall, then unknown character, then blank
    assert!(!map.grid.get(&Position::new(0, 1)).unwrap().walkable);
    assert!(map.grid.get(&Position::new(1, 1)).unwrap().walkable);
    assert!(map.grid.get(&Position::new(2, 1)).unwrap().walkable);
}

#[test]
fn test_mutating_a_tile() {
    let mut tower = Tower::new();
    tower.insert_empty_map("lv", "m", 3, 3);
    {
        let t = tower.get_tile_mut("lv", "m", &Position::new(1, 1));
        t.walkable = false;
        t.entities.push(42);
    }
    let t = tower.get_tile("lv", "m", &Position::new(1, 1)).unwrap();
    assert!(!t.walkable);
    assert!(t.transparent);
    assert_eq!(t.entities, vec![42]);
}
