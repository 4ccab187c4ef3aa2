//! Plain data that the simulation hands to the renderer and the interface.

use vstd::prelude::*;

use crate::dungeon::{TileKind, TileMap};

verus! {

/// Side length, in tiles, of the square chunks in which terrain changes are tracked.
pub const CHUNK_SIZE: i32 = 16;

/// Coordinates of a chunk of `CHUNK_SIZE` x `CHUNK_SIZE` tiles.
#[derive(Clone, Copy, Debug, PartialEq, Eq, Hash, Structural)]
pub struct ChunkCoord {
    pub cx: i32,
    pub cy: i32,
}

/// One tile as the renderer draws it.
#[derive(Clone, Debug)]
pub struct TileRenderData {
    pub x: i32,
    pub y: i32,
    pub kind: TileKind,
}

/// What the inventory panel shows.
#[derive(Clone, Debug)]
pub struct InventoryView {
    pub rat_tails: u32,
    pub show_panel: bool,
}

/// Text shown in the inspect panel after a right click.
#[derive(Clone, Debug)]
pub struct InspectInfo {
    pub title: String,
    pub lines: Vec<String>,
}

/// The phase the game is in.
#[derive(Clone, Copy, Debug, PartialEq, Eq, Structural)]
pub enum GameState {
    Loading,
    Running,
    Paused,
    GameOver,
    Victory,
}


/// The tiles of `map` as the renderer draws them, row by row: entry `i` is
/// tile (i % width, i / width). A map wider or taller than `i32::MAX` has no
/// tile coordinates in `i32`, and gives no entries.
pub fn snapshot_tiles(map: &TileMap) -> (r: Vec<TileRenderData>)
    requires
        map.wf(),
    ensures
        map.width <= i32::MAX && map.height <= i32::MAX ==> {
            &&& r@.len() == map.width * map.height
            &&& forall|i: int|
                0 <= i < r@.len() ==> (#[trigger] r@[i]).x == i % (map.width as int) && r@[i].y == i / (
                map.width as int) && r@[i].kind == map.kind_at(i % (map.width as int), i / (map.width as int))
        },
        !(map.width <= i32::MAX && map.height <= i32::MAX) ==> r@.len() == 0,
{
    let mut out: Vec<TileRenderData> = Vec::new();
    if map.width > i32::MAX as u32 || map.height > i32::MAX as u32 {
        return out;
    }
    let w = map.width as i32;
    let h = map.height as i32;
    let mut y: i32 = 0;
    while y < h
        invariant
            map.wf(),
            w == map.width,
            h == map.height,
            0 <= y <= h,
            out@.len() == y * w,
            forall|i: int|
                0 <= i < out@.len() ==> (#[trigger] out@[i]).x == i % (w as int) && out@[i].y == i / (w as int)
                    && out@[i].kind == map.kind_at(i % (w as int), i / (w as int)),
        decreases h - y,
    {
        let mut x: i32 = 0;
        while x < w
            invariant
                map.wf(),
                w == map.width,
                h == map.height,
                0 <= y < h,
                0 <= x <= w,
                out@.len() == y * w + x,
                forall|i: int|
                    0 <= i < out@.len() ==> (#[trigger] out@[i]).x == i % (w as int) && out@[i].y == i / (
                    w as int) && out@[i].kind == map.kind_at(i % (w as int), i / (w as int)),
            decreases w - x,
        {
            let kind = map.tile_kind(x, y);
            proof {
                let i = y * w + x;
                assert(i % (w as int) == x && i / (w as int) == y) by (nonlinear_arith)
                    requires
                        i == y * w + x,
                        0 <= x < w,
                        0 <= y,
                ;
            }
            out.push(TileRenderData { x, y, kind });
            x = x + 1;
        }
        proof {
            assert(y * w + w == (y + 1) * w) by (nonlinear_arith);
        }
        y = y + 1;
    }
    proof {
        assert(h * w == w * h) by (nonlinear_arith);
    }
    out
}

} // verus!
