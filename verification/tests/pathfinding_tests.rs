use ht_dungeon_core::dungeon::TileMap;
use ht_dungeon_core::entity::TileCoord;
use ht_dungeon_core::pathfinding::{find_tile_path, walkable_ring};

/// Builds a map from rows of text: '.' is floor, anything else wall.
fn map_from(rows: &[&str]) -> TileMap {
    let mut map = TileMap::new(rows[0].len() as u32, rows.len() as u32);
    for (y, row) in rows.iter().enumerate() {
        for (x, c) in row.chars().enumerate() {
            if c == '.' {
                map.set_floor(x as i32, y as i32);
            }
        }
    }
    map
}

fn t(x: i32, y: i32) -> TileCoord {
    TileCoord::new(x, y)
}

fn assert_valid(map: &TileMap, start: TileCoord, path: &[TileCoord]) {
    let mut prev = start;
    for p in path {
        let dx = p.x - prev.x;
        let dy = p.y - prev.y;
        assert!(dx.abs() <= 1 && dy.abs() <= 1 && (dx, dy) != (0, 0));
        assert!(map.is_walkable(p.x, p.y));
        if dx != 0 && dy != 0 {
            assert!(map.is_walkable(prev.x + dx, prev.y));
            assert!(map.is_walkable(prev.x, prev.y + dy));
        }
        prev = *p;
    }
}

#[test]
fn straight_corridor() {
    let map = map_from(&["#######", "#.....#", "#######"]);
    let p = find_tile_path(&map, t(1, 1), t(5, 1)).unwrap();
    assert_eq!(p, vec![t(2, 1), t(3, 1), t(4, 1), t(5, 1)]);
}

#[test]
fn same_tile_gives_just_the_goal() {
    let map = map_from(&["###", "#.#", "###"]);
    assert_eq!(find_tile_path(&map, t(1, 1), t(1, 1)).unwrap(), vec![t(1, 1)]);
}

#[test]
fn walls_give_no_path() {
    let map = map_from(&["#####", "#.#.#", "#####"]);
    assert!(find_tile_path(&map, t(1, 1), t(3, 1)).is_none());
    assert!(find_tile_path(&map, t(0, 0), t(1, 1)).is_none());
    assert!(find_tile_path(&map, t(1, 1), t(2, 1)).is_none());
}

#[test]
fn diagonal_in_open_room() {
    let map = map_from(&["#####", "#...#", "#...#", "#...#", "#####"]);
    let p = find_tile_path(&map, t(1, 1), t(3, 3)).unwrap();
    assert_eq!(p, vec![t(2, 2), t(3, 3)]);
}

#[test]
fn no_corner_cutting() {
    // The two floor tiles touch only at a corner.
    let map = map_from(&["####", "#.##", "##.#", "####"]);
    assert!(find_tile_path(&map, t(1, 1), t(2, 2)).is_none());
    // With one side open the walk goes round the corner.
    let map = map_from(&["####", "#..#", "##.#", "####"]);
    let p = find_tile_path(&map, t(1, 1), t(2, 2)).unwrap();
    assert_eq!(p, vec![t(2, 1), t(2, 2)]);
}

#[test]
fn winding_path_is_valid() {
    let map = map_from(&[
        "##########",
        "#........#",
        "########.#",
        "#........#",
        "#.########",
        "#........#",
        "##########",
    ]);
    let p = find_tile_path(&map, t(1, 1), t(8, 5)).unwrap();
    assert_eq!(*p.last().unwrap(), t(8, 5));
    assert_valid(&map, t(1, 1), &p);
}

#[test]
fn path_is_shortest_in_moves_on_open_floor() {
    let rows = vec!["############"; 1]
        .into_iter()
        .chain(vec!["#..........#"; 8])
        .chain(vec!["############"; 1])
        .collect::<Vec<_>>();
    let map = map_from(&rows);
    let p = find_tile_path(&map, t(1, 1), t(10, 4)).unwrap();
    assert_valid(&map, t(1, 1), &p);
    assert_eq!(p.len(), 9);
}

#[test]
fn ring_lists_floor_in_scan_order() {
    let map = map_from(&["#####", "#...#", "#.#.#", "#...#", "#####"]);
    let ring = walkable_ring(&map, 2, 2, 1);
    assert_eq!(ring, vec![t(1, 1), t(2, 1), t(3, 1), t(1, 2), t(3, 2), t(1, 3), t(2, 3), t(3, 3)]);
    let ring2 = walkable_ring(&map, 2, 2, 2);
    assert!(ring2.is_empty());
    let ring0 = walkable_ring(&map, 1, 1, 0);
    assert_eq!(ring0, vec![t(1, 1)]);
}
