use ht_dungeon_core::dungeon::{generate_dungeon, Room, TileKind, TileMap, MAP_HEIGHT, MAP_WIDTH, ROOM_COUNT};
use ht_dungeon_core::pathfinding::find_tile_path;
use ht_dungeon_core::entity::TileCoord;
use ht_dungeon_core::snapshot::{snapshot_tiles, ChunkCoord};
use ht_dungeon_core::random::SeededRng;

fn room(x: i32, y: i32, width: i32, height: i32) -> Room {
    Room { id: 0, x, y, width, height }
}

#[test]
fn new_map_is_all_wall() {
    let map = TileMap::new(4, 3);
    assert_eq!(map.width, 4);
    assert_eq!(map.height, 3);
    assert!(map.dirty_chunks.is_empty());
    for y in 0..3 {
        for x in 0..4 {
            let t = map.get(x, y).unwrap();
            assert_eq!(t.kind, TileKind::Wall);
            assert_eq!(t.hp, Some(10));
            assert_eq!(t.revision, 0);
            assert!(!map.is_walkable(x, y));
        }
    }
}

#[test]
fn out_of_bounds_reads_as_wall() {
    let map = TileMap::new(4, 3);
    assert!(map.get(-1, 0).is_none());
    assert!(map.get(4, 0).is_none());
    assert!(map.get(0, 3).is_none());
    assert!(!map.in_bounds(-1, 0));
    assert!(map.in_bounds(3, 2));
    assert!(!map.in_bounds(3, 3));
    assert_eq!(map.tile_kind(10, 10), TileKind::Wall);
    assert!(!map.is_walkable(-5, 1));
}

#[test]
fn set_floor_carves_once_and_marks_chunk() {
    let mut map = TileMap::new(40, 20);
    map.set_floor(17, 3);
    let t = map.get(17, 3).unwrap();
    assert_eq!(t.kind, TileKind::Floor);
    assert_eq!(t.hp, None);
    assert_eq!(t.revision, 1);
    assert!(map.is_walkable(17, 3));
    assert_eq!(map.tile_kind(17, 3), TileKind::Floor);
    assert_eq!(map.dirty_chunks, vec![ChunkCoord { cx: 1, cy: 0 }]);
    // Carving the same tile again changes nothing.
    map.set_floor(17, 3);
    assert_eq!(map.get(17, 3).unwrap().revision, 1);
    assert_eq!(map.dirty_chunks.len(), 1);
    // Another tile of the same chunk does not list the chunk twice.
    map.set_floor(20, 5);
    assert_eq!(map.dirty_chunks.len(), 1);
    // A tile of another chunk is listed after it.
    map.set_floor(2, 17);
    assert_eq!(map.dirty_chunks, vec![ChunkCoord { cx: 1, cy: 0 }, ChunkCoord { cx: 0, cy: 1 }]);
    // Outside the map nothing happens.
    map.set_floor(-1, 0);
    map.set_floor(40, 0);
    assert_eq!(map.dirty_chunks.len(), 2);
}

#[test]
fn take_dirty_chunks_empties_the_list() {
    let mut map = TileMap::new(20, 20);
    map.set_floor(1, 1);
    map.set_floor(18, 18);
    let taken = map.take_dirty_chunks();
    assert_eq!(taken, vec![ChunkCoord { cx: 0, cy: 0 }, ChunkCoord { cx: 1, cy: 1 }]);
    assert!(map.dirty_chunks.is_empty());
    assert!(map.is_walkable(1, 1));
    assert!(map.take_dirty_chunks().is_empty());
}

#[test]
fn get_mut_changes_one_tile() {
    let mut map = TileMap::new(5, 5);
    {
        let t = map.get_mut(2, 3).unwrap();
        t.hp = Some(4);
    }
    assert_eq!(map.get(2, 3).unwrap().hp, Some(4));
    assert_eq!(map.get(3, 2).unwrap().hp, Some(10));
    assert!(map.get_mut(5, 0).is_none());
}

#[test]
fn room_center_rounds_toward_zero() {
    assert_eq!(room(2, 3, 5, 4).center(), (4, 5));
    assert_eq!(room(0, 0, 1, 1).center(), (0, 0));
    assert_eq!(room(10, 10, -3, -5).center(), (9, 8));
}

#[test]
fn rooms_need_a_tile_of_padding() {
    let a = room(0, 0, 5, 5);
    assert!(!a.overlaps_with_padding(&room(6, 0, 3, 3)));
    assert!(a.overlaps_with_padding(&room(5, 0, 3, 3)));
    assert!(a.overlaps_with_padding(&room(2, 2, 3, 3)));
    assert!(!a.overlaps_with_padding(&room(0, 6, 3, 3)));
    assert!(room(5, 0, 3, 3).overlaps_with_padding(&a));
}

#[test]
fn room_contains_its_tiles_only() {
    let r = room(2, 3, 4, 2);
    assert!(r.contains_tile(2, 3));
    assert!(r.contains_tile(5, 4));
    assert!(!r.contains_tile(6, 4));
    assert!(!r.contains_tile(5, 5));
    assert!(!r.contains_tile(1, 3));
}

#[test]
fn random_interior_point_stays_inside() {
    let r = room(10, 20, 6, 5);
    let mut rng = SeededRng::new(7);
    let mut seen = std::collections::HashSet::new();
    for _ in 0..200 {
        let (x, y) = r.random_interior_point(&mut rng);
        assert!(11 <= x && x < 15);
        assert!(21 <= y && y < 24);
        seen.insert((x, y));
    }
    // All twelve interior tiles come up.
    assert_eq!(seen.len(), 12);
    let thin = room(10, 20, 2, 2);
    for _ in 0..20 {
        assert_eq!(thin.random_interior_point(&mut rng), (11, 21));
    }
}

fn check_generated(seed: u64) {
    let d = generate_dungeon(seed).expect("a floor is generated");
    assert_eq!(d.seed, seed);
    assert_eq!(d.map.width, MAP_WIDTH);
    assert_eq!(d.map.height, MAP_HEIGHT);
    assert!(d.map.dirty_chunks.is_empty());
    assert_eq!(d.rooms.len(), ROOM_COUNT);
    for (i, r) in d.rooms.iter().enumerate() {
        assert_eq!(r.id, i);
        assert!((5..=12).contains(&r.width));
        assert!((5..=10).contains(&r.height));
        for y in r.y..r.y + r.height {
            for x in r.x..r.x + r.width {
                assert!(d.map.is_walkable(x, y));
            }
        }
        for (j, other) in d.rooms.iter().enumerate() {
            if i != j {
                assert!(!r.overlaps_with_padding(other));
            }
        }
    }
    for x in 0..MAP_WIDTH as i32 {
        assert!(!d.map.is_walkable(x, 0));
        assert!(!d.map.is_walkable(x, MAP_HEIGHT as i32 - 1));
    }
    for y in 0..MAP_HEIGHT as i32 {
        assert!(!d.map.is_walkable(0, y));
        assert!(!d.map.is_walkable(MAP_WIDTH as i32 - 1, y));
    }
    let (sx, sy) = d.rooms[0].center();
    for r in &d.rooms {
        let (cx, cy) = r.center();
        assert!(find_tile_path(&d.map, TileCoord::new(sx, sy), TileCoord::new(cx, cy)).is_some());
    }
}

#[test]
fn generated_floors_meet_the_rules() {
    for seed in [0u64, 1, 2, 42, 12345, 987654321] {
        check_generated(seed);
    }
}

#[test]
fn same_seed_gives_same_floor() {
    let a = generate_dungeon(99).unwrap();
    let b = generate_dungeon(99).unwrap();
    for (ra, rb) in a.rooms.iter().zip(b.rooms.iter()) {
        assert_eq!((ra.x, ra.y, ra.width, ra.height), (rb.x, rb.y, rb.width, rb.height));
    }
    for y in 0..MAP_HEIGHT as i32 {
        for x in 0..MAP_WIDTH as i32 {
            assert_eq!(a.map.tile_kind(x, y), b.map.tile_kind(x, y));
        }
    }
}

#[test]
fn snapshot_tiles_row_by_row() {
    let mut map = TileMap::new(3, 2);
    map.set_floor(1, 1);
    let tiles = snapshot_tiles(&map);
    assert_eq!(tiles.len(), 6);
    let coords: Vec<(i32, i32)> = tiles.iter().map(|t| (t.x, t.y)).collect();
    assert_eq!(coords, vec![(0, 0), (1, 0), (2, 0), (0, 1), (1, 1), (2, 1)]);
    assert_eq!(tiles[4].kind, TileKind::Floor);
    assert_eq!(tiles[3].kind, TileKind::Wall);
}

#[test]
fn room_sizes_vary() {
    let d = generate_dungeon(2024).unwrap();
    let widths: std::collections::HashSet<i32> = d.rooms.iter().map(|r| r.width).collect();
    let heights: std::collections::HashSet<i32> = d.rooms.iter().map(|r| r.height).collect();
    assert!(widths.len() > 1);
    assert!(heights.len() > 1);
    let xs: std::collections::HashSet<i32> = d.rooms.iter().map(|r| r.x).collect();
    assert!(xs.len() > 1);
}

#[test]
fn different_seeds_give_different_floors() {
    let a = generate_dungeon(5).unwrap();
    let b = generate_dungeon(6).unwrap();
    let ra: Vec<(i32, i32, i32, i32)> = a.rooms.iter().map(|r| (r.x, r.y, r.width, r.height)).collect();
    let rb: Vec<(i32, i32, i32, i32)> = b.rooms.iter().map(|r| (r.x, r.y, r.width, r.height)).collect();
    assert_ne!(ra, rb);
}

#[test]
fn spawn_tiles_are_floor() {
    let mut rng = SeededRng::new(99);
    for seed in [3u64, 17, 2024] {
        let d = generate_dungeon(seed).expect("a floor is generated");
        for r in &d.rooms {
            for _ in 0..50 {
                let (x, y) = r.random_interior_point(&mut rng);
                assert!(d.map.is_walkable(x, y));
                assert_eq!(d.map.tile_kind(x, y), TileKind::Floor);
            }
        }
    }
}
