//! The tile map, rooms, and the seeded dungeon generator.

use vstd::prelude::*;

use crate::random::{
    after_range, after_ratio, chacha_range_draw, chacha_ratio_draw, random_below, random_ratio, random_through,
    RngCall, SeededRng,
};
use crate::grid::{
    lemma_closed_holds_reachable, lemma_column_reachable, lemma_row_reachable, lemma_side_reachable_refl,
    lemma_side_reachable_step, lemma_side_reachable_trans, side_closed, side_reachable, side_step,
};
use crate::snapshot::{ChunkCoord, CHUNK_SIZE};

verus! {

pub const MAP_WIDTH: u32 = 80;
pub const MAP_HEIGHT: u32 = 60;
pub const ROOM_COUNT: usize = 10;

#[derive(Clone, Copy, Debug, PartialEq, Eq, Structural)]
pub enum TileKind {
    Wall,
    Floor,
}

#[derive(Clone, Debug)]
pub struct Tile {
    pub kind: TileKind,
    pub hp: Option<i32>,
    pub revision: u32,
}

impl Tile {
    pub open spec fn wall_spec() -> Tile {
        Tile { kind: TileKind::Wall, hp: Some(10), revision: 0 }
    }

    /// A floor tile as `TileMap::set_floor` leaves it: no hit points, first revision.
    pub open spec fn carved_floor_spec() -> Tile {
        Tile { kind: TileKind::Floor, hp: None, revision: 1 }
    }

    fn wall() -> (r: Self)
        ensures
            r == Tile::wall_spec(),
    {
        Self { kind: TileKind::Wall, hp: Some(10), revision: 0 }
    }

    fn floor() -> (r: Self)
        ensures
            r == (Tile { kind: TileKind::Floor, hp: None, revision: 0 }),
    {
        Self { kind: TileKind::Floor, hp: None, revision: 0 }
    }
}

/// The chunk that holds tile (x, y), for tiles of the map (non-negative coordinates).
pub open spec fn chunk_of(x: int, y: int) -> ChunkCoord {
    ChunkCoord { cx: (x / CHUNK_SIZE as int) as i32, cy: (y / CHUNK_SIZE as int) as i32 }
}

/// A `width` x `height` grid of tiles stored row by row, with the list of chunks
/// whose terrain changed since the list was last taken.
pub struct TileMap {
    pub width: u32,
    pub height: u32,
    pub tiles: Vec<Tile>,
    pub dirty_chunks: Vec<ChunkCoord>,
}

proof fn lemma_index_in_range(w: int, h: int, x: int, y: int)
    requires
        0 <= x < w,
        0 <= y < h,
    ensures
        0 <= y * w + x < w * h,
{
    assert(0 <= y * w) by (nonlinear_arith)
        requires
            0 <= y,
            0 <= w,
    ;
    assert(y * w + x < w * h) by (nonlinear_arith)
        requires
            0 <= x < w,
            0 <= y < h,
    ;
}

pub(crate) proof fn lemma_index_injective(w: int, x1: int, y1: int, x2: int, y2: int)
    requires
        0 <= x1 < w,
        0 <= x2 < w,
        0 <= y1,
        0 <= y2,
        y1 * w + x1 == y2 * w + x2,
    ensures
        x1 == x2,
        y1 == y2,
{
    if y1 < y2 {
        assert(y1 * w + w <= y2 * w) by (nonlinear_arith)
            requires
                y1 < y2,
                0 <= w,
        ;
    } else if y2 < y1 {
        assert(y2 * w + w <= y1 * w) by (nonlinear_arith)
            requires
                y2 < y1,
                0 <= w,
        ;
    }
}

impl TileMap {
    /// The tiles, row by row.
    pub open spec fn tiles_view(&self) -> Seq<Tile> {
        self.tiles@
    }

    /// The map holds exactly `width * height` tiles, a number that fits in `u32`.
    pub open spec fn wf(&self) -> bool {
        &&& self.tiles_view().len() == self.width as int * self.height as int
        &&& self.width as int * self.height as int <= u32::MAX
    }

    pub open spec fn in_bounds_spec(&self, x: int, y: int) -> bool {
        0 <= x < self.width && 0 <= y < self.height
    }

    pub open spec fn index_of(&self, x: int, y: int) -> int {
        y * self.width + x
    }

    pub open spec fn tile_at(&self, x: int, y: int) -> Tile {
        self.tiles_view()[self.index_of(x, y)]
    }

    /// The kind of tile (x, y); everything outside the map counts as wall.
    pub open spec fn kind_at(&self, x: int, y: int) -> TileKind {
        if self.in_bounds_spec(x, y) {
            self.tile_at(x, y).kind
        } else {
            TileKind::Wall
        }
    }

    /// Tile (x, y) lies in the map and is floor.
    pub open spec fn walkable(&self, x: int, y: int) -> bool {
        self.kind_at(x, y) == TileKind::Floor
    }

    pub proof fn lemma_index(&self, x: int, y: int)
        requires
            self.wf(),
            self.in_bounds_spec(x, y),
        ensures
            0 <= self.index_of(x, y) < self.tiles_view().len(),
    {
        lemma_index_in_range(self.width as int, self.height as int, x, y);
    }

    /// A map of wall tiles only, with no dirty chunks.
    pub fn new(width: u32, height: u32) -> (r: Self)
        requires
            width as int * height as int <= u32::MAX,
        ensures
            r.wf(),
            r.width == width,
            r.height == height,
            r.dirty_chunks@ == Seq::<ChunkCoord>::empty(),
            forall|i: int| 0 <= i < r.tiles_view().len() ==> r.tiles_view()[i] == Tile::wall_spec(),
    {
        let n = (width * height) as usize;
        let mut tiles: Vec<Tile> = Vec::new();
        let mut i: usize = 0;
        while i < n
            invariant
                i <= n,
                tiles@.len() == i,
                forall|j: int| 0 <= j < i ==> tiles@[j] == Tile::wall_spec(),
            decreases n - i,
        {
            tiles.push(Tile::wall());
            i = i + 1;
        }
        Self { width, height, tiles, dirty_chunks: Vec::new() }
    }

    pub(crate) fn index(&self, x: i32, y: i32) -> (r: Option<usize>)
        requires
            self.wf(),
        ensures
            r is Some <==> self.in_bounds_spec(x as int, y as int),
            r matches Some(i) ==> i == self.index_of(x as int, y as int) && i < self.tiles_view().len(),
    {
        if x >= 0 && y >= 0 && (x as u32) < self.width && (y as u32) < self.height {
            proof {
                lemma_index_in_range(self.width as int, self.height as int, x as int, y as int);
            }
            Some((y as u32 * self.width + x as u32) as usize)
        } else {
            None
        }
    }

    /// The tile at (x, y), if that lies in the map.
    pub fn get(&self, x: i32, y: i32) -> (r: Option<&Tile>)
        requires
            self.wf(),
        ensures
            r is Some <==> self.in_bounds_spec(x as int, y as int),
            r matches Some(t) ==> *t == self.tile_at(x as int, y as int),
    {
        match self.index(x, y) {
            Some(i) => Some(&self.tiles[i]),
            None => None,
        }
    }

    /// Mutable access to the tile at (x, y), if that lies in the map.
    pub fn get_mut(&mut self, x: i32, y: i32) -> (r: Option<&mut Tile>)
        requires
            old(self).wf(),
        ensures
            r is Some <==> old(self).in_bounds_spec(x as int, y as int),
            r matches Some(t) ==> {
                &&& *t == old(self).tile_at(x as int, y as int)
                &&& final(self).tiles_view() == old(self).tiles_view().update(
                    old(self).index_of(x as int, y as int),
                    *final(t),
                )
            },
            r is None ==> final(self).tiles_view() == old(self).tiles_view(),
            final(self).width == old(self).width,
            final(self).height == old(self).height,
            final(self).dirty_chunks == old(self).dirty_chunks,
    {
        match self.index(x, y) {
            Some(i) => Some(&mut self.tiles[i]),
            None => None,
        }
    }

    /// Turns tile (x, y) into a fresh floor tile of revision 1 if it lies in the
    /// map and is not floor yet, and records its chunk as dirty once.
    pub fn set_floor(&mut self, x: i32, y: i32)
        requires
            old(self).wf(),
        ensures
            final(self).wf(),
            final(self).width == old(self).width,
            final(self).height == old(self).height,
            if old(self).in_bounds_spec(x as int, y as int) && old(self).kind_at(x as int, y as int)
                != TileKind::Floor {
                &&& final(self).tiles_view() == old(self).tiles_view().update(
                    old(self).index_of(x as int, y as int),
                    Tile::carved_floor_spec(),
                )
                &&& final(self).dirty_chunks@ == if old(self).dirty_chunks@.contains(
                    chunk_of(x as int, y as int),
                ) {
                    old(self).dirty_chunks@
                } else {
                    old(self).dirty_chunks@.push(chunk_of(x as int, y as int))
                }
            } else {
                &&& final(self).tiles_view() == old(self).tiles_view()
                &&& final(self).dirty_chunks@ == old(self).dirty_chunks@
            },
            forall|a: int, b: int|
                #![trigger final(self).kind_at(a, b)]
                final(self).kind_at(a, b) == if a == x && b == y && old(self).in_bounds_spec(a, b) {
                    TileKind::Floor
                } else {
                    old(self).kind_at(a, b)
                },
    {
        if let Some(i) = self.index(x, y) {
            if self.tiles[i].kind != TileKind::Floor {
                let mut fresh = Tile::floor();
                fresh.revision = fresh.revision + 1;
                self.tiles.set(i, fresh);
                let chunk = ChunkCoord { cx: x / CHUNK_SIZE, cy: y / CHUNK_SIZE };
                let mut present = false;
                let mut j: usize = 0;
                while j < self.dirty_chunks.len()
                    invariant
                        j <= self.dirty_chunks@.len(),
                        present <==> self.dirty_chunks@.subrange(0, j as int).contains(chunk),
                    decreases self.dirty_chunks@.len() - j,
                {
                    if self.dirty_chunks[j].cx == chunk.cx && self.dirty_chunks[j].cy == chunk.cy {
                        present = true;
                    }
                    proof {
                        let s = self.dirty_chunks@;
                        let pre = s.subrange(0, j as int);
                        let post = s.subrange(0, j + 1);
                        assert(post == pre.push(s[j as int]));
                        if s[j as int] == chunk {
                            assert(post[j as int] == chunk);
                        }
                        if pre.contains(chunk) {
                            let k = choose|k: int| 0 <= k < pre.len() && pre[k] == chunk;
                            assert(post[k] == chunk);
                        }
                        if post.contains(chunk) {
                            let k = choose|k: int| 0 <= k < post.len() && post[k] == chunk;
                            if k < j {
                                assert(pre[k] == chunk);
                            }
                        }
                    }
                    j = j + 1;
                }
                proof {
                    assert(self.dirty_chunks@.subrange(0, self.dirty_chunks@.len() as int)
                        == self.dirty_chunks@);
                }
                if !present {
                    self.dirty_chunks.push(chunk);
                }
            }
        }
        proof {
            assert forall|a: int, b: int|
                #![trigger self.kind_at(a, b)]
                self.kind_at(a, b) == if a == x && b == y && old(self).in_bounds_spec(a, b) {
                    TileKind::Floor
                } else {
                    old(self).kind_at(a, b)
                } by {
                if old(self).in_bounds_spec(a, b) && old(self).in_bounds_spec(x as int, y as int)
                    && !(a == x && b == y) {
                    lemma_index_in_range(self.width as int, self.height as int, a, b);
                    if self.index_of(a, b) == self.index_of(x as int, y as int) {
                        lemma_index_injective(self.width as int, a, b, x as int, y as int);
                    }
                }
            }
        }
    }

    /// Tile (x, y) lies in the map and is floor.
    pub fn is_walkable(&self, x: i32, y: i32) -> (r: bool)
        requires
            self.wf(),
        ensures
            r == self.walkable(x as int, y as int),
    {
        match self.get(x, y) {
            Some(t) => t.kind == TileKind::Floor,
            None => false,
        }
    }

    pub fn in_bounds(&self, x: i32, y: i32) -> (r: bool)
        ensures
            r == self.in_bounds_spec(x as int, y as int),
    {
        x >= 0 && y >= 0 && (x as u32) < self.width && (y as u32) < self.height
    }

    /// The kind of tile (x, y), wall outside the map.
    pub fn tile_kind(&self, x: i32, y: i32) -> (r: TileKind)
        requires
            self.wf(),
        ensures
            r == self.kind_at(x as int, y as int),
    {
        match self.get(x, y) {
            Some(t) => t.kind,
            None => TileKind::Wall,
        }
    }

    /// Hands out the dirty chunks and leaves the list empty.
    pub fn take_dirty_chunks(&mut self) -> (r: Vec<ChunkCoord>)
        ensures
            r@ == old(self).dirty_chunks@,
            final(self).dirty_chunks@ == Seq::<ChunkCoord>::empty(),
            final(self).tiles_view() == old(self).tiles_view(),
            final(self).width == old(self).width,
            final(self).height == old(self).height,
    {
        let mut out: Vec<ChunkCoord> = Vec::new();
        std::mem::swap(&mut out, &mut self.dirty_chunks);
        out
    }
}


/// Half of `v`, rounded toward zero as Rust's integer division does.
pub open spec fn half_toward_zero(v: int) -> int {
    if v >= 0 {
        v / 2
    } else {
        -((-v) / 2)
    }
}

/// A rectangular room: tiles x..x+width by y..y+height.
#[derive(Clone, Debug)]
pub struct Room {
    pub id: usize,
    pub x: i32,
    pub y: i32,
    pub width: i32,
    pub height: i32,
}

impl Room {
    pub open spec fn center_spec(&self) -> (int, int) {
        (self.x + half_toward_zero(self.width as int), self.y + half_toward_zero(self.height as int))
    }

    /// The centre's coordinates fit in `i32`.
    pub open spec fn center_fits(&self) -> bool {
        &&& i32::MIN <= self.center_spec().0 <= i32::MAX
        &&& i32::MIN <= self.center_spec().1 <= i32::MAX
    }

    pub open spec fn overlaps_spec(&self, other: &Room) -> bool {
        !(self.x + self.width + 1 <= other.x || other.x + other.width + 1 <= self.x || self.y
            + self.height + 1 <= other.y || other.y + other.height + 1 <= self.y)
    }

    pub open spec fn contains_spec(&self, x: int, y: int) -> bool {
        self.x <= x < self.x + self.width && self.y <= y < self.y + self.height
    }

    /// The tile at the middle of the room (half sizes rounded toward zero).
    pub fn center(&self) -> (r: (i32, i32))
        requires
            self.center_fits(),
        ensures
            r.0 == self.center_spec().0,
            r.1 == self.center_spec().1,
    {
        (self.x + self.width / 2, self.y + self.height / 2)
    }

    /// The rooms come closer than one tile of padding (they overlap or touch).
    pub fn overlaps_with_padding(&self, other: &Room) -> (r: bool)
        ensures
            r == self.overlaps_spec(other),
    {
        let pad: i64 = 1;
        !(self.x as i64 + self.width as i64 + pad <= other.x as i64 || other.x as i64
            + other.width as i64 + pad <= self.x as i64 || self.y as i64 + self.height as i64 + pad
            <= other.y as i64 || other.y as i64 + other.height as i64 + pad <= self.y as i64)
    }

    /// Tile (x, y) lies inside the room.
    pub fn contains_tile(&self, x: i32, y: i32) -> (r: bool)
        ensures
            r == self.contains_spec(x as int, y as int),
    {
        x >= self.x && (x as i64) < self.x as i64 + self.width as i64 && y >= self.y && (y as i64)
            < self.y as i64 + self.height as i64
    }

    /// A tile drawn from the room without its outer ring; a room too thin for
    /// that gives the tile just inside its top-left corner. The column is
    /// drawn first, then the row.
    pub fn random_interior_point(&self, rng: &mut SeededRng) -> (r: (i32, i32))
        requires
            self.x + 2 <= i32::MAX,
            self.y + 2 <= i32::MAX,
            i32::MIN < self.x + self.width <= i32::MAX,
            i32::MIN < self.y + self.height <= i32::MAX,
        ensures
            interior_pick(*self, r.0 as int, r.1 as int),
            r.0 == chacha_range_draw(old(rng)@, (self.x + 1) as i32, interior_last(self.x as int, self.width as int) as i32),
            r.1 == chacha_range_draw(
                after_range(old(rng)@, (self.x + 1) as i32, interior_last(self.x as int, self.width as int) as i32),
                (self.y + 1) as i32,
                interior_last(self.y as int, self.height as int) as i32,
            ),
            final(rng)@ == after_range(
                after_range(old(rng)@, (self.x + 1) as i32, interior_last(self.x as int, self.width as int) as i32),
                (self.y + 1) as i32,
                interior_last(self.y as int, self.height as int) as i32,
            ),
    {
        let margin: i32 = 1;
        let x_end = if self.x + self.width - margin > self.x + margin + 1 {
            self.x + self.width - margin
        } else {
            self.x + margin + 1
        };
        let rx = random_below(rng, self.x + margin, x_end);
        let y_end = if self.y + self.height - margin > self.y + margin + 1 {
            self.y + self.height - margin
        } else {
            self.y + margin + 1
        };
        let ry = random_below(rng, self.y + margin, y_end);
        (rx, ry)
    }
}

/// The last column (or row) that `Room::random_interior_point` may draw for a
/// room that starts at `start` and spans `size` tiles: the one before its far
/// edge, but never before the one just inside its near edge.
pub open spec fn interior_last(start: int, size: int) -> int {
    if start + size - 1 > start + 2 {
        start + size - 2
    } else {
        start + 1
    }
}

/// Tile (x, y) is one that `Room::random_interior_point` may draw from `room`:
/// off the room's outer ring, or just inside its top-left corner where the
/// room is too thin to have an inner part.
pub open spec fn interior_pick(room: Room, x: int, y: int) -> bool {
    &&& room.x + 1 <= x
    &&& x < room.x + room.width - 1 || x == room.x + 1
    &&& room.y + 1 <= y
    &&& y < room.y + room.height - 1 || y == room.y + 1
}

/// Every room's centre can be reached from the centre of the first room by a
/// side-by-side walk over floor (true when there are no rooms).
pub open spec fn rooms_connected(map: &TileMap, rooms: Seq<Room>) -> bool {
    rooms.len() == 0 || forall|i: int|
        #![trigger rooms[i]]
        0 <= i < rooms.len() ==> side_reachable(map, rooms[0].center_spec(), rooms[i].center_spec())
}

spec fn count_unset(s: Seq<bool>) -> nat
    decreases s.len(),
{
    if s.len() == 0 {
        0
    } else {
        count_unset(s.drop_last()) + if s.last() {
            0nat
        } else {
            1nat
        }
    }
}

proof fn lemma_count_unset_set(s: Seq<bool>, i: int)
    requires
        0 <= i < s.len(),
        !s[i],
    ensures
        count_unset(s.update(i, true)) + 1 == count_unset(s),
    decreases s.len(),
{
    let t = s.update(i, true);
    if i == s.len() - 1 {
        assert(t.drop_last() == s.drop_last());
    } else {
        assert(t.drop_last() == s.drop_last().update(i, true));
        lemma_count_unset_set(s.drop_last(), i);
    }
}

/// The set of tiles a depth-first search from `start` has marked: `start`
/// itself through its flag, every tile of the map through `vis`.
spec fn dfs_seen(map: &TileMap, start: (int, int), start_seen: bool, vis: Seq<bool>, x: int, y: int) -> bool {
    (x == start.0 && y == start.1 && start_seen) || (map.in_bounds_spec(x, y) && vis[map.index_of(x, y)])
}

spec fn stacked(stack: Seq<(i32, i32)>, x: int, y: int) -> bool {
    exists|i: int| 0 <= i < stack.len() && stack[i].0 == x && stack[i].1 == y
}

/// Every floor tile beside a marked tile is marked or waiting on the stack.
spec fn dfs_frontier_ok(
    map: &TileMap,
    start: (int, int),
    start_seen: bool,
    vis: Seq<bool>,
    stack: Seq<(i32, i32)>,
) -> bool {
    forall|x: int, y: int|
        #[trigger] dfs_seen(map, start, start_seen, vis, x, y) ==> {
            &&& map.walkable(x + 1, y) ==> (dfs_seen(map, start, start_seen, vis, x + 1, y) || stacked(
                stack,
                x + 1,
                y,
            ))
            &&& map.walkable(x - 1, y) ==> (dfs_seen(map, start, start_seen, vis, x - 1, y) || stacked(
                stack,
                x - 1,
                y,
            ))
            &&& map.walkable(x, y + 1) ==> (dfs_seen(map, start, start_seen, vis, x, y + 1) || stacked(
                stack,
                x,
                y + 1,
            ))
            &&& map.walkable(x, y - 1) ==> (dfs_seen(map, start, start_seen, vis, x, y - 1) || stacked(
                stack,
                x,
                y - 1,
            ))
        }
}

/// Whether tile (x, y) has been marked, as the search reads it.
fn dfs_is_seen(map: &TileMap, start: (i32, i32), start_seen: bool, vis: &Vec<bool>, x: i32, y: i32) -> (r: bool)
    requires
        map.wf(),
        vis@.len() == map.tiles_view().len(),
        map.in_bounds_spec(start.0 as int, start.1 as int) ==> vis@[map.index_of(
            start.0 as int,
            start.1 as int,
        )] == start_seen,
    ensures
        r == dfs_seen(map, (start.0 as int, start.1 as int), start_seen, vis@, x as int, y as int),
{
    if x == start.0 && y == start.1 {
        start_seen
    } else {
        match map.index(x, y) {
            Some(i) => vis[i],
            None => false,
        }
    }
}

/// Pushes (x, y) when it is floor and not marked yet.
fn dfs_push_if_open(
    map: &TileMap,
    start: (i32, i32),
    start_seen: bool,
    vis: &Vec<bool>,
    stack: &mut Vec<(i32, i32)>,
    x: i32,
    y: i32,
)
    requires
        map.wf(),
        vis@.len() == map.tiles_view().len(),
        map.in_bounds_spec(start.0 as int, start.1 as int) ==> vis@[map.index_of(
            start.0 as int,
            start.1 as int,
        )] == start_seen,
    ensures
        final(stack)@ == if map.walkable(x as int, y as int) && !dfs_seen(
            map,
            (start.0 as int, start.1 as int),
            start_seen,
            vis@,
            x as int,
            y as int,
        ) {
            old(stack)@.push((x, y))
        } else {
            old(stack)@
        },
{
    if map.is_walkable(x, y) && !dfs_is_seen(map, start, start_seen, vis, x, y) {
        stack.push((x, y));
    }
}

/// What holds between the steps of the search from `st`: the stack and the
/// marked tiles are reachable from `st`, `st` is marked or stacked, and the
/// floor beside every marked tile is marked or stacked.
spec fn dfs_inv(map: &TileMap, st: (int, int), ss: bool, vis: Seq<bool>, stack: Seq<(i32, i32)>) -> bool {
    &&& map.wf()
    &&& map.width <= i32::MAX
    &&& map.height <= i32::MAX
    &&& i32::MIN < st.0 < i32::MAX
    &&& i32::MIN < st.1 < i32::MAX
    &&& vis.len() == map.tiles_view().len()
    &&& map.in_bounds_spec(st.0, st.1) ==> vis[map.index_of(st.0, st.1)] == ss
    &&& forall|i: int|
        0 <= i < stack.len() ==> ((#[trigger] stack[i]).0 == st.0 && stack[i].1 == st.1) || map.walkable(
            stack[i].0 as int,
            stack[i].1 as int,
        )
    &&& forall|i: int|
        0 <= i < stack.len() ==> side_reachable(map, st, ((#[trigger] stack[i]).0 as int, stack[i].1 as int))
    &&& forall|x: int, y: int| #[trigger] dfs_seen(map, st, ss, vis, x, y) ==> side_reachable(map, st, (x, y))
    &&& dfs_frontier_ok(map, st, ss, vis, stack)
    &&& dfs_seen(map, st, ss, vis, st.0, st.1) || stacked(stack, st.0, st.1)
}

spec fn dfs_measure(ss: bool, vis: Seq<bool>) -> nat {
    count_unset(vis) + if ss {
        0nat
    } else {
        1nat
    }
}

/// Marks (x, y), which is `start` or a floor tile not marked yet.
fn dfs_mark(map: &TileMap, start: (i32, i32), start_seen: &mut bool, vis: &mut Vec<bool>, x: i32, y: i32)
    requires
        map.wf(),
        old(vis)@.len() == map.tiles_view().len(),
        map.in_bounds_spec(start.0 as int, start.1 as int) ==> old(vis)@[map.index_of(
            start.0 as int,
            start.1 as int,
        )] == *old(start_seen),
        !dfs_seen(map, (start.0 as int, start.1 as int), *old(start_seen), old(vis)@, x as int, y as int),
        (x == start.0 && y == start.1) || map.walkable(x as int, y as int),
    ensures
        final(vis)@.len() == map.tiles_view().len(),
        map.in_bounds_spec(start.0 as int, start.1 as int) ==> final(vis)@[map.index_of(
            start.0 as int,
            start.1 as int,
        )] == *final(start_seen),
        dfs_measure(*final(start_seen), final(vis)@) < dfs_measure(*old(start_seen), old(vis)@),
        forall|a: int, b: int|
            #![trigger dfs_seen(map, (start.0 as int, start.1 as int), *final(start_seen), final(vis)@, a, b)]
            dfs_seen(map, (start.0 as int, start.1 as int), *final(start_seen), final(vis)@, a, b) == (
            dfs_seen(map, (start.0 as int, start.1 as int), *old(start_seen), old(vis)@, a, b) || (a == x
                && b == y)),
{
    let ghost st = (start.0 as int, start.1 as int);
    let is_start = x == start.0 && y == start.1;
    if is_start {
        *start_seen = true;
    }
    match map.index(x, y) {
        Some(i) => {
            proof {
                if !is_start {
                    if map.in_bounds_spec(st.0, st.1) && i == map.index_of(st.0, st.1) {
                        lemma_index_injective(map.width as int, x as int, y as int, st.0, st.1);
                    }
                }
                lemma_count_unset_set(vis@, i as int);
            }
            vis.set(i, true);
        },
        None => {},
    }
    proof {
        if map.in_bounds_spec(st.0, st.1) {
            map.lemma_index(st.0, st.1);
        }
        assert forall|a: int, b: int|
            dfs_seen(map, st, *start_seen, vis@, a, b) == (dfs_seen(map, st, *old(start_seen), old(vis)@, a, b)
                || (a == x && b == y)) by {
            if map.in_bounds_spec(a, b) && map.in_bounds_spec(x as int, y as int) {
                map.lemma_index(a, b);
                map.lemma_index(x as int, y as int);
                if map.index_of(a, b) == map.index_of(x as int, y as int) {
                    lemma_index_injective(map.width as int, a, b, x as int, y as int);
                }
            }
        }
    }
}

/// Stacks each floor tile beside (x, y) that is not marked yet.
fn dfs_push_neighbours(
    map: &TileMap,
    start: (i32, i32),
    start_seen: bool,
    vis: &Vec<bool>,
    stack: &mut Vec<(i32, i32)>,
    x: i32,
    y: i32,
)
    requires
        map.wf(),
        vis@.len() == map.tiles_view().len(),
        map.in_bounds_spec(start.0 as int, start.1 as int) ==> vis@[map.index_of(
            start.0 as int,
            start.1 as int,
        )] == start_seen,
        i32::MIN < x < i32::MAX,
        i32::MIN < y < i32::MAX,
    ensures
        old(stack)@.is_prefix_of(final(stack)@),
        forall|i: int|
            old(stack)@.len() <= i < final(stack)@.len() ==> side_step(
                (x as int, y as int),
                ((#[trigger] final(stack)@[i]).0 as int, final(stack)@[i].1 as int),
            ) && map.walkable(final(stack)@[i].0 as int, final(stack)@[i].1 as int),
        forall|a: int, b: int|
            side_step((x as int, y as int), (a, b)) && map.walkable(a, b) && !dfs_seen(
                map,
                (start.0 as int, start.1 as int),
                start_seen,
                vis@,
                a,
                b,
            ) ==> stacked(final(stack)@, a, b),
{
    let ghost st = (start.0 as int, start.1 as int);
    let ghost s0 = stack@;
    dfs_push_if_open(map, start, start_seen, vis, stack, x, y + 1);
    let ghost s1 = stack@;
    dfs_push_if_open(map, start, start_seen, vis, stack, x, y - 1);
    let ghost s2 = stack@;
    dfs_push_if_open(map, start, start_seen, vis, stack, x + 1, y);
    let ghost s3 = stack@;
    dfs_push_if_open(map, start, start_seen, vis, stack, x - 1, y);
    let ghost s4 = stack@;
    proof {
        assert(s0.is_prefix_of(s1));
        assert(s1.is_prefix_of(s2));
        assert(s2.is_prefix_of(s3));
        assert(s3.is_prefix_of(s4));
        assert(s0.is_prefix_of(s4));
        assert forall|a: int, b: int|
            side_step((x as int, y as int), (a, b)) && map.walkable(a, b) && !dfs_seen(
                map,
                st,
                start_seen,
                vis@,
                a,
                b,
            ) implies stacked(s4, a, b) by {
            if a == x && b == y + 1 {
                assert(s4[s0.len() as int] == s1[s0.len() as int]);
            } else if a == x && b == y - 1 {
                assert(s4[s1.len() as int] == s2[s1.len() as int]);
            } else if a == x + 1 && b == y {
                assert(s4[s2.len() as int] == s3[s2.len() as int]);
            } else {
                assert(s4[s3.len() as int] == ((x - 1) as i32, y));
            }
        }
        assert forall|i: int| s0.len() <= i < s4.len() implies side_step(
            (x as int, y as int),
            ((#[trigger] s4[i]).0 as int, s4[i].1 as int),
        ) && map.walkable(s4[i].0 as int, s4[i].1 as int) by {
            if i < s1.len() {
                assert(s4[i] == s1[i]);
            } else if i < s2.len() {
                assert(s4[i] == s2[i]);
            } else if i < s3.len() {
                assert(s4[i] == s3[i]);
            }
        }
    }
}

proof fn lemma_dfs_pop(
    map: &TileMap,
    st: (int, int),
    ss: bool,
    vis: Seq<bool>,
    old_stack: Seq<(i32, i32)>,
    stack: Seq<(i32, i32)>,
)
    requires
        dfs_inv(map, st, ss, vis, old_stack),
        old_stack.len() > 0,
        stack == old_stack.drop_last(),
    ensures
        side_reachable(map, st, (old_stack.last().0 as int, old_stack.last().1 as int)),
        (old_stack.last().0 == st.0 && old_stack.last().1 == st.1) || map.walkable(
            old_stack.last().0 as int,
            old_stack.last().1 as int,
        ),
        forall|a: int, b: int|
            stacked(old_stack, a, b) && !(a == old_stack.last().0 && b == old_stack.last().1) ==> stacked(
                stack,
                a,
                b,
            ),
        forall|i: int|
            0 <= i < stack.len() ==> side_reachable(map, st, ((#[trigger] stack[i]).0 as int, stack[i].1 as int)),
        forall|i: int|
            0 <= i < stack.len() ==> ((#[trigger] stack[i]).0 == st.0 && stack[i].1 == st.1) || map.walkable(
                stack[i].0 as int,
                stack[i].1 as int,
            ),
{
    let last = old_stack.len() - 1;
    assert(old_stack[last] == old_stack.last());
    assert forall|a: int, b: int|
        stacked(old_stack, a, b) && !(a == old_stack.last().0 && b == old_stack.last().1) implies stacked(
        stack,
        a,
        b,
    ) by {
        let i = choose|i: int| 0 <= i < old_stack.len() && old_stack[i].0 == a && old_stack[i].1 == b;
        assert(stack[i] == old_stack[i]);
    }
    assert forall|i: int| 0 <= i < stack.len() implies side_reachable(
        map,
        st,
        ((#[trigger] stack[i]).0 as int, stack[i].1 as int),
    ) by {
        assert(stack[i] == old_stack[i]);
    }
    assert forall|i: int| 0 <= i < stack.len() implies ((#[trigger] stack[i]).0 == st.0 && stack[i].1
        == st.1) || map.walkable(stack[i].0 as int, stack[i].1 as int) by {
        assert(stack[i] == old_stack[i]);
    }
}

proof fn lemma_dfs_after_visit(
    map: &TileMap,
    st: (int, int),
    old_ss: bool,
    old_vis: Seq<bool>,
    old_stack: Seq<(i32, i32)>,
    ss: bool,
    vis: Seq<bool>,
    stack: Seq<(i32, i32)>,
    x: i32,
    y: i32,
)
    requires
        dfs_inv(map, st, old_ss, old_vis, old_stack),
        old_stack.len() > 0,
        old_stack.last() == (x, y),
        i32::MIN < x < i32::MAX,
        i32::MIN < y < i32::MAX,
        vis.len() == map.tiles_view().len(),
        map.in_bounds_spec(st.0, st.1) ==> vis[map.index_of(st.0, st.1)] == ss,
        forall|a: int, b: int|
            #![trigger dfs_seen(map, st, ss, vis, a, b)]
            dfs_seen(map, st, ss, vis, a, b) == (dfs_seen(map, st, old_ss, old_vis, a, b) || (a == x
                && b == y)),
        old_stack.drop_last().is_prefix_of(stack),
        forall|i: int|
            old_stack.len() - 1 <= i < stack.len() ==> side_step(
                (x as int, y as int),
                ((#[trigger] stack[i]).0 as int, stack[i].1 as int),
            ) && map.walkable(stack[i].0 as int, stack[i].1 as int),
        forall|a: int, b: int|
            side_step((x as int, y as int), (a, b)) && map.walkable(a, b) && !dfs_seen(map, st, ss, vis, a, b)
                ==> stacked(stack, a, b),
    ensures
        dfs_inv(map, st, ss, vis, stack),
{
    let popped = old_stack.drop_last();
    lemma_dfs_pop(map, st, old_ss, old_vis, old_stack, popped);
    assert forall|a: int, b: int| stacked(popped, a, b) implies stacked(stack, a, b) by {
        let i = choose|i: int| 0 <= i < popped.len() && popped[i].0 == a && popped[i].1 == b;
        assert(stack[i] == popped[i]);
    }
    assert forall|i: int| 0 <= i < stack.len() implies side_reachable(
        map,
        st,
        ((#[trigger] stack[i]).0 as int, stack[i].1 as int),
    ) by {
        if i >= popped.len() {
            lemma_side_reachable_step(map, st, (x as int, y as int), (stack[i].0 as int, stack[i].1 as int));
        } else {
            assert(stack[i] == popped[i]);
        }
    }
    assert forall|i: int| 0 <= i < stack.len() implies ((#[trigger] stack[i]).0 == st.0 && stack[i].1
        == st.1) || map.walkable(stack[i].0 as int, stack[i].1 as int) by {
        if i < popped.len() {
            assert(stack[i] == popped[i]);
        }
    }
    assert forall|xx: int, yy: int| #[trigger] dfs_seen(map, st, ss, vis, xx, yy) implies side_reachable(
        map,
        st,
        (xx, yy),
    ) by {
        if !(xx == x && yy == y) {
            assert(dfs_seen(map, st, old_ss, old_vis, xx, yy));
        }
    }
    assert(dfs_frontier_ok(map, st, ss, vis, stack)) by {
        assert forall|xx: int, yy: int| #[trigger] dfs_seen(map, st, ss, vis, xx, yy) implies {
            &&& map.walkable(xx + 1, yy) ==> (dfs_seen(map, st, ss, vis, xx + 1, yy) || stacked(stack, xx + 1, yy))
            &&& map.walkable(xx - 1, yy) ==> (dfs_seen(map, st, ss, vis, xx - 1, yy) || stacked(stack, xx - 1, yy))
            &&& map.walkable(xx, yy + 1) ==> (dfs_seen(map, st, ss, vis, xx, yy + 1) || stacked(stack, xx, yy + 1))
            &&& map.walkable(xx, yy - 1) ==> (dfs_seen(map, st, ss, vis, xx, yy - 1) || stacked(stack, xx, yy - 1))
        } by {
            if xx == x && yy == y {
                assert(side_step((xx, yy), (xx + 1, yy)));
                assert(side_step((xx, yy), (xx - 1, yy)));
                assert(side_step((xx, yy), (xx, yy + 1)));
                assert(side_step((xx, yy), (xx, yy - 1)));
            } else {
                assert(dfs_seen(map, st, old_ss, old_vis, xx, yy));
                assert(dfs_seen(map, st, ss, vis, xx + 1, yy) || !dfs_seen(map, st, old_ss, old_vis, xx + 1, yy));
                assert(dfs_seen(map, st, ss, vis, xx - 1, yy) || !dfs_seen(map, st, old_ss, old_vis, xx - 1, yy));
                assert(dfs_seen(map, st, ss, vis, xx, yy + 1) || !dfs_seen(map, st, old_ss, old_vis, xx, yy + 1));
                assert(dfs_seen(map, st, ss, vis, xx, yy - 1) || !dfs_seen(map, st, old_ss, old_vis, xx, yy - 1));
            }
        }
    }
    assert(dfs_seen(map, st, ss, vis, st.0, st.1) || stacked(stack, st.0, st.1)) by {
        if !dfs_seen(map, st, old_ss, old_vis, st.0, st.1) {
            assert(stacked(old_stack, st.0, st.1));
            if !(st.0 == x && st.1 == y) {
                assert(stacked(popped, st.0, st.1));
            }
        }
    }
}

proof fn lemma_dfs_after_skip(
    map: &TileMap,
    st: (int, int),
    ss: bool,
    vis: Seq<bool>,
    old_stack: Seq<(i32, i32)>,
    stack: Seq<(i32, i32)>,
)
    requires
        dfs_inv(map, st, ss, vis, old_stack),
        old_stack.len() > 0,
        stack == old_stack.drop_last(),
        dfs_seen(map, st, ss, vis, old_stack.last().0 as int, old_stack.last().1 as int),
    ensures
        dfs_inv(map, st, ss, vis, stack),
{
    lemma_dfs_pop(map, st, ss, vis, old_stack, stack);
    let (x, y) = (old_stack.last().0 as int, old_stack.last().1 as int);
    assert(dfs_frontier_ok(map, st, ss, vis, stack)) by {
        assert forall|xx: int, yy: int| #[trigger] dfs_seen(map, st, ss, vis, xx, yy) implies {
            &&& map.walkable(xx + 1, yy) ==> (dfs_seen(map, st, ss, vis, xx + 1, yy) || stacked(stack, xx + 1, yy))
            &&& map.walkable(xx - 1, yy) ==> (dfs_seen(map, st, ss, vis, xx - 1, yy) || stacked(stack, xx - 1, yy))
            &&& map.walkable(xx, yy + 1) ==> (dfs_seen(map, st, ss, vis, xx, yy + 1) || stacked(stack, xx, yy + 1))
            &&& map.walkable(xx, yy - 1) ==> (dfs_seen(map, st, ss, vis, xx, yy - 1) || stacked(stack, xx, yy - 1))
        } by {
            assert(dfs_seen(map, st, ss, vis, x, y));
        }
    }
}

/// One step of the search: pops a tile and, if it was not marked yet, marks it
/// and stacks the floor tiles beside it that are not marked.
fn dfs_step(map: &TileMap, start: (i32, i32), start_seen: &mut bool, vis: &mut Vec<bool>, stack: &mut Vec<(i32, i32)>)
    requires
        dfs_inv(map, (start.0 as int, start.1 as int), *old(start_seen), old(vis)@, old(stack)@),
        old(stack)@.len() > 0,
    ensures
        dfs_inv(map, (start.0 as int, start.1 as int), *final(start_seen), final(vis)@, final(stack)@),
        dfs_measure(*final(start_seen), final(vis)@) < dfs_measure(*old(start_seen), old(vis)@) || (
        dfs_measure(*final(start_seen), final(vis)@) == dfs_measure(*old(start_seen), old(vis)@)
            && final(stack)@.len() < old(stack)@.len()),
{
    let ghost st = (start.0 as int, start.1 as int);
    let ghost old_stack = stack@;
    let ghost old_vis = vis@;
    let ghost old_ss = *start_seen;
    let (x, y) = stack.pop().unwrap();
    proof {
        lemma_dfs_pop(map, st, old_ss, old_vis, old_stack, stack@);
    }
    if dfs_is_seen(map, start, *start_seen, vis, x, y) {
        proof {
            lemma_dfs_after_skip(map, st, old_ss, old_vis, old_stack, stack@);
        }
        return;
    }
    dfs_mark(map, start, start_seen, vis, x, y);
    proof {
        assert(x + 1 <= i32::MAX && x - 1 >= i32::MIN && y + 1 <= i32::MAX && y - 1 >= i32::MIN) by {
            if !(x == start.0 && y == start.1) {
                assert(map.walkable(x as int, y as int));
            }
        }
    }
    dfs_push_neighbours(map, start, *start_seen, vis, stack, x, y);
    proof {
        lemma_dfs_after_visit(map, st, old_ss, old_vis, old_stack, *start_seen, vis@, stack@, x, y);
    }
}

/// Whether the centre of every room can be reached from the centre of the first
/// room by side-by-side steps onto floor tiles.
fn all_rooms_connected(map: &TileMap, rooms: &[Room]) -> (r: bool)
    requires
        map.wf(),
        map.width <= i32::MAX,
        map.height <= i32::MAX,
        forall|i: int| 0 <= i < rooms@.len() ==> (#[trigger] rooms@[i]).center_fits(),
        rooms@.len() > 0 ==> i32::MIN < rooms@[0].center_spec().0 < i32::MAX,
        rooms@.len() > 0 ==> i32::MIN < rooms@[0].center_spec().1 < i32::MAX,
    ensures
        r == rooms_connected(map, rooms@),
{
    if rooms.len() == 0 {
        return true;
    }
    let start = rooms[0].center();
    let ghost st: (int, int) = (start.0 as int, start.1 as int);
    let n = map.tiles.len();
    let mut vis: Vec<bool> = Vec::new();
    let mut k: usize = 0;
    while k < n
        invariant
            k <= n,
            n == map.tiles_view().len(),
            vis@.len() == k,
            forall|j: int| 0 <= j < k ==> !vis@[j],
        decreases n - k,
    {
        vis.push(false);
        k = k + 1;
    }
    let mut start_seen = false;
    let mut stack: Vec<(i32, i32)> = Vec::new();
    stack.push(start);
    proof {
        lemma_side_reachable_refl(map, st);
        assert(stack@[0] == start);
        assert(stacked(stack@, st.0, st.1));
        assert forall|x: int, y: int| !dfs_seen(map, st, start_seen, vis@, x, y) by {
            if map.in_bounds_spec(x, y) {
                map.lemma_index(x, y);
            }
        }
        if map.in_bounds_spec(st.0, st.1) {
            map.lemma_index(st.0, st.1);
        }
        assert(dfs_inv(map, st, start_seen, vis@, stack@));
    }
    while stack.len() > 0
        invariant
            dfs_inv(map, st, start_seen, vis@, stack@),
            st == (start.0 as int, start.1 as int),
        decreases dfs_measure(start_seen, vis@), stack@.len(),
    {
        dfs_step(map, start, &mut start_seen, &mut vis, &mut stack);
    }
    proof {
        let s = |a: int, b: int| dfs_seen(map, st, start_seen, vis@, a, b);
        assert(side_closed(map, s)) by {
            assert forall|a: int, b: int| #[trigger] s(a, b) implies {
                &&& map.walkable(a + 1, b) ==> s(a + 1, b)
                &&& map.walkable(a - 1, b) ==> s(a - 1, b)
                &&& map.walkable(a, b + 1) ==> s(a, b + 1)
                &&& map.walkable(a, b - 1) ==> s(a, b - 1)
            } by {
                assert(dfs_seen(map, st, start_seen, vis@, a, b));
            }
        }
        assert forall|a: int, b: int| side_reachable(map, st, (a, b)) implies dfs_seen(
            map,
            st,
            start_seen,
            vis@,
            a,
            b,
        ) by {
            lemma_closed_holds_reachable(map, s, st, (a, b));
        }
    }
    let mut i: usize = 0;
    while i < rooms.len()
        invariant
            map.wf(),
            vis@.len() == map.tiles_view().len(),
            st == rooms@[0].center_spec(),
            st == (start.0 as int, start.1 as int),
            map.in_bounds_spec(st.0, st.1) ==> vis@[map.index_of(st.0, st.1)] == start_seen,
            forall|j: int| 0 <= j < rooms@.len() ==> (#[trigger] rooms@[j]).center_fits(),
            forall|a: int, b: int|
                dfs_seen(map, st, start_seen, vis@, a, b) == side_reachable(map, st, (a, b)),
            forall|j: int|
                0 <= j < i ==> side_reachable(map, st, (#[trigger] rooms@[j]).center_spec()),
        decreases rooms@.len() - i,
    {
        let (cx, cy) = rooms[i].center();
        if !dfs_is_seen(map, start, start_seen, &vis, cx, cy) {
            assert(!side_reachable(map, st, rooms@[i as int].center_spec()));
            return false;
        }
        i = i + 1;
    }
    true
}


pub open spec fn min_int(a: int, b: int) -> int {
    if a <= b {
        a
    } else {
        b
    }
}

pub open spec fn max_int(a: int, b: int) -> int {
    if a <= b {
        b
    } else {
        a
    }
}

/// Every tile of the map is an untouched wall or a freshly carved floor, so
/// that its kind decides it.
pub open spec fn tiles_uniform(map: &TileMap) -> bool {
    forall|i: int|
        0 <= i < map.tiles_view().len() ==> #[trigger] map.tiles_view()[i] == if map.tiles_view()[i].kind
            == TileKind::Floor {
            Tile::carved_floor_spec()
        } else {
            Tile::wall_spec()
        }
}

/// Tile (x, y) lies on the L-shaped corridor from (ax, ay) to (bx, by): first
/// along row `ay` then along column `bx` when `h_first`, otherwise first along
/// column `ax` then along row `by`.
pub open spec fn on_corridor(ax: int, ay: int, bx: int, by: int, h_first: bool, x: int, y: int) -> bool {
    if h_first {
        (y == ay && min_int(ax, bx) <= x <= max_int(ax, bx)) || (x == bx && min_int(ay, by) <= y
            <= max_int(ay, by))
    } else {
        (x == ax && min_int(ay, by) <= y <= max_int(ay, by)) || (y == by && min_int(ax, bx) <= x
            <= max_int(ax, bx))
    }
}

/// Chunk `c` holds a tile of the rectangle from (x0, y0) to (x1, y1) that lies
/// in `map` and is not floor there.
pub open spec fn chunk_newly_carved(map: &TileMap, x0: int, y0: int, x1: int, y1: int, c: ChunkCoord) -> bool {
    exists|a: int, b: int|
        x0 <= a <= x1 && y0 <= b <= y1 && map.in_bounds_spec(a, b) && map.kind_at(a, b) != TileKind::Floor
            && #[trigger] chunk_of(a, b) == c
}

/// The dirty chunks after carving, from those before: the old list stays in
/// front, no chunk comes twice when none did before, and a chunk is listed
/// exactly when it was before or `fresh` holds of it.
pub open spec fn dirty_after(before: Seq<ChunkCoord>, after: Seq<ChunkCoord>, fresh: spec_fn(ChunkCoord) -> bool) -> bool {
    &&& before.len() <= after.len()
    &&& after.subrange(0, before.len() as int) == before
    &&& before.no_duplicates() ==> after.no_duplicates()
    &&& forall|c: ChunkCoord| #[trigger] after.contains(c) <==> (before.contains(c) || fresh(c))
}

/// Floors every tile of the straight run from (x0, y0) to (x1, y1), which
/// share a row or a column.
fn carve_line(map: &mut TileMap, x0: i32, y0: i32, x1: i32, y1: i32)
    requires
        old(map).wf(),
        (y0 == y1 && x0 <= x1) || (x0 == x1 && y0 <= y1),
    ensures
        final(map).wf(),
        tiles_uniform(old(map)) ==> tiles_uniform(final(map)),
        final(map).width == old(map).width,
        final(map).height == old(map).height,
        dirty_after(
            old(map).dirty_chunks@,
            final(map).dirty_chunks@,
            |c: ChunkCoord| chunk_newly_carved(old(map), x0 as int, y0 as int, x1 as int, y1 as int, c),
        ),
        forall|a: int, b: int|
            #![trigger final(map).kind_at(a, b)]
            final(map).kind_at(a, b) == if x0 <= a <= x1 && y0 <= b <= y1 && old(map).in_bounds_spec(
                a,
                b,
            ) {
                TileKind::Floor
            } else {
                old(map).kind_at(a, b)
            },
{
    let horizontal = y0 == y1;
    let mut t: i64 = if horizontal {
        x0 as i64
    } else {
        y0 as i64
    };
    let end: i64 = if horizontal {
        x1 as i64
    } else {
        y1 as i64
    };
    proof {
        assert(map.dirty_chunks@.subrange(0, map.dirty_chunks@.len() as int) == map.dirty_chunks@);
    }
    while t <= end
        invariant
            map.wf(),
            map.width == old(map).width,
            map.height == old(map).height,
            tiles_uniform(old(map)) ==> tiles_uniform(map),
            dirty_after(
                old(map).dirty_chunks@,
                map.dirty_chunks@,
                |c: ChunkCoord|
                    chunk_newly_carved(
                        old(map),
                        x0 as int,
                        y0 as int,
                        if horizontal {
                            t - 1
                        } else {
                            x1 as int
                        },
                        if horizontal {
                            y1 as int
                        } else {
                            t - 1
                        },
                        c,
                    ),
            ),
            (y0 == y1 && x0 <= x1) || (x0 == x1 && y0 <= y1),
            horizontal == (y0 == y1),
            end == if horizontal {
                x1 as int
            } else {
                y1 as int
            },
            (if horizontal {
                x0 as int
            } else {
                y0 as int
            }) <= t <= end + 1,
            forall|a: int, b: int|
                #![trigger map.kind_at(a, b)]
                map.kind_at(a, b) == if x0 <= a <= x1 && y0 <= b <= y1 && (if horizontal {
                    a < t
                } else {
                    b < t
                }) && old(map).in_bounds_spec(a, b) {
                    TileKind::Floor
                } else {
                    old(map).kind_at(a, b)
                },
        decreases end + 1 - t,
    {
        let ghost before = *map;
        if horizontal {
            map.set_floor(t as i32, y0);
        } else {
            map.set_floor(x0, t as i32);
        }
        proof {
            let (cx, cy): (int, int) = if horizontal {
                (t as int, y0 as int)
            } else {
                (x0 as int, t as int)
            };
            let (px1, py1): (int, int) = if horizontal {
                (t - 1, y1 as int)
            } else {
                (x1 as int, t - 1)
            };
            let (nx1, ny1): (int, int) = if horizontal {
                (t as int, y1 as int)
            } else {
                (x1 as int, t as int)
            };
            let od = old(map).dirty_chunks@;
            let bd = before.dirty_chunks@;
            let ad = map.dirty_chunks@;
            let fresh = before.in_bounds_spec(cx, cy) && before.kind_at(cx, cy) != TileKind::Floor;
            assert(before.kind_at(cx, cy) == old(map).kind_at(cx, cy));
            assert(before.in_bounds_spec(cx, cy) == old(map).in_bounds_spec(cx, cy));
            if fresh && bd.no_duplicates() {
                law_dirty_chunks_listed_once(bd, chunk_of(cx, cy));
            }
            assert forall|c: ChunkCoord| #[trigger] ad.contains(c) <==> (bd.contains(c) || (fresh && c == chunk_of(cx, cy))) by {
                if fresh && !bd.contains(chunk_of(cx, cy)) {
                    assert(ad == bd.push(chunk_of(cx, cy)));
                    if ad.contains(c) {
                        let k = choose|k: int| 0 <= k < ad.len() && ad[k] == c;
                        if k < bd.len() {
                            assert(bd[k] == c);
                        }
                    }
                    if bd.contains(c) {
                        let k = choose|k: int| 0 <= k < bd.len() && bd[k] == c;
                        assert(ad[k] == c);
                    }
                    if c == chunk_of(cx, cy) {
                        assert(ad[bd.len() as int] == c);
                    }
                }
            }
            assert forall|c: ChunkCoord| #[trigger] ad.contains(c) <==> (od.contains(c) || chunk_newly_carved(
                old(map),
                x0 as int,
                y0 as int,
                nx1,
                ny1,
                c,
            )) by {
                if chunk_newly_carved(old(map), x0 as int, y0 as int, nx1, ny1, c) && !chunk_newly_carved(
                    old(map),
                    x0 as int,
                    y0 as int,
                    px1,
                    py1,
                    c,
                ) {
                    let (a, b) = choose|a: int, b: int|
                        x0 <= a <= nx1 && y0 <= b <= ny1 && old(map).in_bounds_spec(a, b) && old(map).kind_at(a, b)
                            != TileKind::Floor && #[trigger] chunk_of(a, b) == c;
                    if !(a == cx && b == cy) {
                        assert(x0 <= a <= px1 && y0 <= b <= py1);
                    }
                }
                if chunk_newly_carved(old(map), x0 as int, y0 as int, px1, py1, c) {
                    let (a, b) = choose|a: int, b: int|
                        x0 <= a <= px1 && y0 <= b <= py1 && old(map).in_bounds_spec(a, b) && old(map).kind_at(a, b)
                            != TileKind::Floor && #[trigger] chunk_of(a, b) == c;
                    assert(chunk_newly_carved(old(map), x0 as int, y0 as int, nx1, ny1, c));
                }
                if fresh && c == chunk_of(cx, cy) {
                    assert(chunk_newly_carved(old(map), x0 as int, y0 as int, nx1, ny1, c));
                }
            }
            assert(ad.subrange(0, od.len() as int) == od) by {
                assert(bd.subrange(0, od.len() as int) == od);
                if ad != bd {
                    assert(ad == bd.push(chunk_of(cx, cy)));
                    assert(ad.subrange(0, od.len() as int) =~= bd.subrange(0, od.len() as int));
                }
            }
        }
        proof {
            if tiles_uniform(&before) {
                assert forall|i: int| 0 <= i < map.tiles_view().len() implies #[trigger] map.tiles_view()[i]
                    == if map.tiles_view()[i].kind == TileKind::Floor {
                    Tile::carved_floor_spec()
                } else {
                    Tile::wall_spec()
                } by {
                    let (cx, cy): (int, int) = if horizontal {
                        (t as int, y0 as int)
                    } else {
                        (x0 as int, t as int)
                    };
                    if before.in_bounds_spec(cx, cy) && before.kind_at(cx, cy) != TileKind::Floor {
                        let k = before.index_of(cx, cy);
                        before.lemma_index(cx, cy);
                        assert(map.tiles_view() == before.tiles_view().update(k, Tile::carved_floor_spec()));
                        if i != k {
                            assert(map.tiles_view()[i] == before.tiles_view()[i]);
                        }
                    } else {
                        assert(map.tiles_view() == before.tiles_view());
                    }
                }
            }
        }
        t = t + 1;
    }
}

/// Chunk `c` holds a tile of the L-shaped corridor from (ax, ay) to (bx, by)
/// that lies in `map` and is not floor there.
pub open spec fn chunk_newly_on_corridor(
    map: &TileMap,
    ax: int,
    ay: int,
    bx: int,
    by: int,
    h_first: bool,
    c: ChunkCoord,
) -> bool {
    exists|a: int, b: int|
        on_corridor(ax, ay, bx, by, h_first, a, b) && map.in_bounds_spec(a, b) && map.kind_at(a, b)
            != TileKind::Floor && #[trigger] chunk_of(a, b) == c
}

/// Floors the L-shaped corridor between (ax, ay) and (bx, by).
fn carve_corridor(map: &mut TileMap, ax: i32, ay: i32, bx: i32, by: i32, h_first: bool)
    requires
        old(map).wf(),
    ensures
        final(map).wf(),
        tiles_uniform(old(map)) ==> tiles_uniform(final(map)),
        final(map).width == old(map).width,
        final(map).height == old(map).height,
        dirty_after(
            old(map).dirty_chunks@,
            final(map).dirty_chunks@,
            |c: ChunkCoord|
                chunk_newly_on_corridor(old(map), ax as int, ay as int, bx as int, by as int, h_first, c),
        ),
        forall|a: int, b: int|
            #![trigger final(map).kind_at(a, b)]
            final(map).kind_at(a, b) == if on_corridor(
                ax as int,
                ay as int,
                bx as int,
                by as int,
                h_first,
                a,
                b,
            ) && old(map).in_bounds_spec(a, b) {
                TileKind::Floor
            } else {
                old(map).kind_at(a, b)
            },
{
    let (x0, x1) = if ax <= bx {
        (ax, bx)
    } else {
        (bx, ax)
    };
    let (y0, y1) = if ay <= by {
        (ay, by)
    } else {
        (by, ay)
    };
    let ghost start = *map;
    let ghost (l1x0, l1y0, l1x1, l1y1, l2x0, l2y0, l2x1, l2y1): (int, int, int, int, int, int, int, int) = if h_first {
        (x0 as int, ay as int, x1 as int, ay as int, bx as int, y0 as int, bx as int, y1 as int)
    } else {
        (ax as int, y0 as int, ax as int, y1 as int, x0 as int, by as int, x1 as int, by as int)
    };
    if h_first {
        carve_line(map, x0, ay, x1, ay);
    } else {
        carve_line(map, ax, y0, ax, y1);
    }
    let ghost mid = *map;
    if h_first {
        carve_line(map, bx, y0, bx, y1);
    } else {
        carve_line(map, x0, by, x1, by);
    }
    proof {
        let od = start.dirty_chunks@;
        let md = mid.dirty_chunks@;
        let fd = map.dirty_chunks@;
        assert(fd.subrange(0, od.len() as int) =~= md.subrange(0, md.len() as int).subrange(0, od.len() as int));
        assert(md.subrange(0, md.len() as int) == md);
        assert forall|c: ChunkCoord| #[trigger] fd.contains(c) <==> (od.contains(c) || chunk_newly_on_corridor(
            &start,
            ax as int,
            ay as int,
            bx as int,
            by as int,
            h_first,
            c,
        )) by {
            assert(fd.contains(c) <==> (md.contains(c) || chunk_newly_carved(&mid, l2x0, l2y0, l2x1, l2y1, c)));
            assert(md.contains(c) <==> (od.contains(c) || chunk_newly_carved(&start, l1x0, l1y0, l1x1, l1y1, c)));
            if chunk_newly_carved(&start, l1x0, l1y0, l1x1, l1y1, c) {
                let (a, b) = choose|a: int, b: int|
                    l1x0 <= a <= l1x1 && l1y0 <= b <= l1y1 && start.in_bounds_spec(a, b) && start.kind_at(a, b)
                        != TileKind::Floor && #[trigger] chunk_of(a, b) == c;
                assert(on_corridor(ax as int, ay as int, bx as int, by as int, h_first, a, b));
            }
            if chunk_newly_carved(&mid, l2x0, l2y0, l2x1, l2y1, c) {
                let (a, b) = choose|a: int, b: int|
                    l2x0 <= a <= l2x1 && l2y0 <= b <= l2y1 && mid.in_bounds_spec(a, b) && mid.kind_at(a, b)
                        != TileKind::Floor && #[trigger] chunk_of(a, b) == c;
                assert(mid.kind_at(a, b) == start.kind_at(a, b));
                assert(on_corridor(ax as int, ay as int, bx as int, by as int, h_first, a, b));
            }
            if chunk_newly_on_corridor(&start, ax as int, ay as int, bx as int, by as int, h_first, c) {
                let (a, b) = choose|a: int, b: int|
                    on_corridor(ax as int, ay as int, bx as int, by as int, h_first, a, b) && start.in_bounds_spec(a, b)
                        && start.kind_at(a, b) != TileKind::Floor && #[trigger] chunk_of(a, b) == c;
                if l1x0 <= a <= l1x1 && l1y0 <= b <= l1y1 {
                    assert(chunk_newly_carved(&start, l1x0, l1y0, l1x1, l1y1, c));
                } else {
                    assert(mid.kind_at(a, b) == start.kind_at(a, b));
                    assert(chunk_newly_carved(&mid, l2x0, l2y0, l2x1, l2y1, c));
                }
            }
        }
    }
}

/// A generated floor: the map, its rooms in placement order, and the seed.
pub struct Dungeon {
    pub map: TileMap,
    pub rooms: Vec<Room>,
    pub seed: u64,
}

/// The size limits of a generated room and its place inside the map, which
/// keeps it off the outer two rows and columns of tiles.
pub open spec fn room_placed_ok(r: Room, id: int) -> bool {
    &&& r.id == id
    &&& 5 <= r.width <= 12
    &&& 5 <= r.height <= 10
    &&& 1 <= r.x
    &&& r.x + r.width <= MAP_WIDTH - 2
    &&& 1 <= r.y
    &&& r.y + r.height <= MAP_HEIGHT - 2
}

/// Floor lies only in the interior of the map: no tile of the outer two
/// right-hand columns and bottom rows, nor of the left column and top row, is floor.
pub open spec fn floor_inside(map: &TileMap) -> bool {
    forall|x: int, y: int|
        #[trigger] map.kind_at(x, y) == TileKind::Floor ==> 1 <= x < MAP_WIDTH - 2 && 1 <= y
            < MAP_HEIGHT - 2
}

/// Every tile of every room is floor.
pub open spec fn rooms_floored(map: &TileMap, rooms: Seq<Room>) -> bool {
    forall|i: int, x: int, y: int|
        0 <= i < rooms.len() && (#[trigger] rooms[i]).contains_spec(x, y) ==> #[trigger] map.kind_at(x, y)
            == TileKind::Floor
}

/// No two rooms come within one tile of each other.
pub open spec fn rooms_apart(rooms: Seq<Room>) -> bool {
    forall|i: int, j: int|
        #![trigger rooms[i], rooms[j]]
        0 <= i < rooms.len() && 0 <= j < rooms.len() && i != j ==> !rooms[i].overlaps_spec(&rooms[j])
}

impl Dungeon {
    /// What a floor made by `generate_dungeon` from `seed` satisfies.
    pub open spec fn generated_from(&self, seed: u64) -> bool {
        &&& self.seed == seed
        &&& self.map.wf()
        &&& self.map.width == MAP_WIDTH
        &&& self.map.height == MAP_HEIGHT
        &&& self.map.dirty_chunks@.len() == 0
        &&& self.rooms@.len() == ROOM_COUNT
        &&& forall|i: int| 0 <= i < self.rooms@.len() ==> room_placed_ok(#[trigger] self.rooms@[i], i)
        &&& rooms_apart(self.rooms@)
        &&& rooms_floored(&self.map, self.rooms@)
        &&& floor_inside(&self.map)
        &&& rooms_connected(&self.map, self.rooms@)
    }
}


/// Floors every tile of `room`, row by row.
fn carve_room(map: &mut TileMap, room: &Room)
    requires
        old(map).wf(),
        1 <= room.width,
        1 <= room.height,
        room.x + room.width <= i32::MAX,
        room.y + room.height <= i32::MAX,
    ensures
        final(map).wf(),
        tiles_uniform(old(map)) ==> tiles_uniform(final(map)),
        final(map).width == old(map).width,
        final(map).height == old(map).height,
        forall|a: int, b: int|
            #![trigger final(map).kind_at(a, b)]
            final(map).kind_at(a, b) == if room.contains_spec(a, b) && old(map).in_bounds_spec(a, b) {
                TileKind::Floor
            } else {
                old(map).kind_at(a, b)
            },
{
    let mut ry = room.y;
    while ry < room.y + room.height
        invariant
            map.wf(),
            map.width == old(map).width,
            map.height == old(map).height,
            tiles_uniform(old(map)) ==> tiles_uniform(map),
            1 <= room.width,
            room.x + room.width <= i32::MAX,
            room.y + room.height <= i32::MAX,
            room.y <= ry <= room.y + room.height,
            forall|a: int, b: int|
                #![trigger map.kind_at(a, b)]
                map.kind_at(a, b) == if room.contains_spec(a, b) && b < ry && old(map).in_bounds_spec(a, b) {
                    TileKind::Floor
                } else {
                    old(map).kind_at(a, b)
                },
        decreases room.y + room.height - ry,
    {
        carve_line(map, room.x, ry, room.x + room.width - 1, ry);
        ry = ry + 1;
    }
}

/// Some room of `rooms` comes within one tile of `room`.
fn overlaps_any(rooms: &Vec<Room>, room: &Room) -> (r: bool)
    ensures
        r == exists|i: int| 0 <= i < rooms@.len() && (#[trigger] rooms@[i]).overlaps_spec(room),
{
    let mut i: usize = 0;
    while i < rooms.len()
        invariant
            i <= rooms@.len(),
            forall|j: int| 0 <= j < i ==> !(#[trigger] rooms@[j]).overlaps_spec(room),
        decreases rooms@.len() - i,
    {
        if rooms[i].overlaps_with_padding(room) {
            return true;
        }
        i = i + 1;
    }
    false
}

/// Tile (x, y) lies in one of `rooms`.
pub open spec fn in_some_room(rooms: Seq<Room>, x: int, y: int) -> bool {
    exists|i: int| 0 <= i < rooms.len() && #[trigger] rooms[i].contains_spec(x, y)
}

/// Tile (x, y) lies on the L-shaped corridor from the centre of `a` to the
/// centre of `b`, bending as `h_first` says.
pub open spec fn corridor_between(a: Room, b: Room, h_first: bool, x: int, y: int) -> bool {
    on_corridor(a.center_spec().0, a.center_spec().1, b.center_spec().0, b.center_spec().1, h_first, x, y)
}

/// Tile (x, y) lies on one of the corridors that join consecutive rooms of
/// `rooms`, the corridor from room `i` bending as `bends[i]` says.
pub open spec fn on_some_corridor(rooms: Seq<Room>, bends: Seq<bool>, x: int, y: int) -> bool {
    exists|i: int|
        0 <= i < bends.len() && i + 1 < rooms.len() && #[trigger] corridor_between(
            rooms[i],
            rooms[i + 1],
            bends[i],
            x,
            y,
        )
}

/// Tile (x, y) is floor on a floor laid out as `rooms` joined in order by the
/// corridors of `bends`.
pub open spec fn laid_floor(rooms: Seq<Room>, bends: Seq<bool>, x: int, y: int) -> bool {
    in_some_room(rooms, x, y) || on_some_corridor(rooms, bends, x, y)
}

/// The tiles, row by row, of the map laid out as `rooms` and `bends`: carved
/// floor where `laid_floor` holds, untouched wall elsewhere.
pub open spec fn laid_tiles(rooms: Seq<Room>, bends: Seq<bool>) -> Seq<Tile> {
    Seq::new(
        (MAP_WIDTH * MAP_HEIGHT) as nat,
        |i: int|
            if laid_floor(rooms, bends, i % (MAP_WIDTH as int), i / (MAP_WIDTH as int)) {
                Tile::carved_floor_spec()
            } else {
                Tile::wall_spec()
            },
    )
}

/// The candidate room numbered `id` that one placement try draws from the
/// generator state `g` (width, height, column, row, in that order), and the
/// state after it.
pub open spec fn draw_room(g: (u64, Seq<RngCall>), id: int) -> (Room, (u64, Seq<RngCall>)) {
    let w = chacha_range_draw(g, 5, 12);
    let g1 = after_range(g, 5, 12);
    let h = chacha_range_draw(g1, 5, 10);
    let g2 = after_range(g1, 5, 10);
    let last_x = (MAP_WIDTH - w - 2) as i32;
    let x = chacha_range_draw(g2, 1, last_x);
    let g3 = after_range(g2, 1, last_x);
    let last_y = (MAP_HEIGHT - h - 2) as i32;
    let y = chacha_range_draw(g3, 1, last_y);
    let g4 = after_range(g3, 1, last_y);
    (Room { id: id as usize, x, y, width: w, height: h }, g4)
}

/// Some room of `rooms` comes within one tile of `room`.
pub open spec fn rooms_overlap(rooms: Seq<Room>, room: Room) -> bool {
    exists|i: int| 0 <= i < rooms.len() && (#[trigger] rooms[i]).overlaps_spec(&room)
}

/// Room placement from generator state `g`, with `rooms` placed after `tries`
/// tries: until ten rooms are placed or 500 tries are spent, each try draws a
/// candidate and keeps it when it comes within one tile of no placed room.
/// The rooms placed, and the generator state after.
pub open spec fn place_rooms(g: (u64, Seq<RngCall>), rooms: Seq<Room>, tries: int) -> (
    Seq<Room>,
    (u64, Seq<RngCall>),
)
    decreases 500 - tries,
{
    if rooms.len() >= ROOM_COUNT || tries >= 500 {
        (rooms, g)
    } else {
        let (candidate, g1) = draw_room(g, rooms.len() as int);
        place_rooms(
            g1,
            if rooms_overlap(rooms, candidate) {
                rooms
            } else {
                rooms.push(candidate)
            },
            tries + 1,
        )
    }
}

/// The bends of `n` corridors, one fair coin each (`true`: row first), drawn
/// from the generator state `g`, and the state after.
pub open spec fn draw_bends(g: (u64, Seq<RngCall>), n: nat) -> (Seq<bool>, (u64, Seq<RngCall>))
    decreases n,
{
    if n == 0 {
        (Seq::empty(), g)
    } else {
        let (bends, g1) = draw_bends(g, (n - 1) as nat);
        (bends.push(chacha_ratio_draw(g1, 1, 2)), after_ratio(g1, 1, 2))
    }
}

/// One attempt at a floor from the generator state `g`: its rooms and corridor
/// bends, or `None` when fewer than ten rooms fit in 500 tries; and the state
/// after the attempt.
pub open spec fn attempt(g: (u64, Seq<RngCall>)) -> (Option<(Seq<Room>, Seq<bool>)>, (u64, Seq<RngCall>)) {
    let (rooms, g1) = place_rooms(g, Seq::empty(), 0);
    if rooms.len() < ROOM_COUNT {
        (None, g1)
    } else {
        let (bends, g2) = draw_bends(g1, (ROOM_COUNT - 1) as nat);
        (Some((rooms, bends)), g2)
    }
}

/// The floor found from the generator state `g` after `failed` failed
/// attempts: the first attempt that succeeds, or `None` once `u64::MAX`
/// attempts have failed.
pub open spec fn first_floor(g: (u64, Seq<RngCall>), failed: nat) -> Option<(Seq<Room>, Seq<bool>)>
    decreases u64::MAX - failed,
{
    if failed >= u64::MAX {
        None
    } else if attempt(g).0 is Some {
        attempt(g).0
    } else {
        first_floor(attempt(g).1, failed + 1)
    }
}

/// The rooms and corridor bends of the floor that `seed` gives.
pub open spec fn seed_floor(seed: u64) -> Option<(Seq<Room>, Seq<bool>)> {
    first_floor((seed, Seq::<RngCall>::empty()), 0)
}

impl Dungeon {
    /// The floor has the seed `seed`, exactly the rooms `rooms`, and exactly the
    /// tiles of `rooms` joined by the corridors of `bends`.
    pub open spec fn laid_out_as(&self, seed: u64, rooms: Seq<Room>, bends: Seq<bool>) -> bool {
        &&& self.seed == seed
        &&& self.rooms@ == rooms
        &&& self.map.width == MAP_WIDTH
        &&& self.map.height == MAP_HEIGHT
        &&& self.map.tiles_view() == laid_tiles(rooms, bends)
        &&& self.map.dirty_chunks@.len() == 0
    }
}

proof fn lemma_room_tiles_inside(r: Room, id: int, x: int, y: int)
    requires
        room_placed_ok(r, id),
        r.contains_spec(x, y),
    ensures
        1 <= x < MAP_WIDTH - 2,
        1 <= y < MAP_HEIGHT - 2,
{
}

proof fn lemma_corridor_inside(a: Room, ia: int, b: Room, ib: int, h_first: bool, x: int, y: int)
    requires
        room_placed_ok(a, ia),
        room_placed_ok(b, ib),
        corridor_between(a, b, h_first, x, y),
    ensures
        1 <= x < MAP_WIDTH - 2,
        1 <= y < MAP_HEIGHT - 2,
{
    assert(a.contains_spec(a.center_spec().0, a.center_spec().1));
    assert(b.contains_spec(b.center_spec().0, b.center_spec().1));
}

/// When every tile of the corridor from `a` to `b` is floor, a side walk leads
/// from the centre of `a` to the centre of `b`.
proof fn lemma_corridor_reachable(map: &TileMap, a: Room, b: Room, h_first: bool)
    requires
        forall|x: int, y: int| corridor_between(a, b, h_first, x, y) ==> #[trigger] map.walkable(x, y),
    ensures
        side_reachable(map, a.center_spec(), b.center_spec()),
{
    let (ax, ay) = a.center_spec();
    let (bx, by) = b.center_spec();
    if h_first {
        assert forall|x: int| (ax <= x <= bx || bx <= x <= ax) implies #[trigger] map.walkable(x, ay) by {
            assert(corridor_between(a, b, h_first, x, ay));
        }
        lemma_row_reachable(map, ay, ax, bx);
        assert forall|y: int| (ay <= y <= by || by <= y <= ay) implies #[trigger] map.walkable(bx, y) by {
            assert(corridor_between(a, b, h_first, bx, y));
        }
        lemma_column_reachable(map, bx, ay, by);
        lemma_side_reachable_trans(map, (ax, ay), (bx, ay), (bx, by));
    } else {
        assert forall|y: int| (ay <= y <= by || by <= y <= ay) implies #[trigger] map.walkable(ax, y) by {
            assert(corridor_between(a, b, h_first, ax, y));
        }
        lemma_column_reachable(map, ax, ay, by);
        assert forall|x: int| (ax <= x <= bx || bx <= x <= ax) implies #[trigger] map.walkable(x, by) by {
            assert(corridor_between(a, b, h_first, x, by));
        }
        lemma_row_reachable(map, by, ax, bx);
        lemma_side_reachable_trans(map, (ax, ay), (ax, by), (bx, by));
    }
}

proof fn lemma_laid_reach(map: &TileMap, rooms: Seq<Room>, bends: Seq<bool>, k: int)
    requires
        rooms.len() >= 1,
        bends.len() + 1 == rooms.len(),
        0 <= k < rooms.len(),
        forall|x: int, y: int| laid_floor(rooms, bends, x, y) ==> #[trigger] map.walkable(x, y),
    ensures
        side_reachable(map, rooms[0].center_spec(), rooms[k].center_spec()),
    decreases k,
{
    if k == 0 {
        lemma_side_reachable_refl(map, rooms[0].center_spec());
    } else {
        lemma_laid_reach(map, rooms, bends, k - 1);
        assert forall|x: int, y: int| corridor_between(rooms[k - 1], rooms[k], bends[k - 1], x, y) implies #[trigger] map.walkable(
            x,
            y,
        ) by {
            assert(corridor_between(rooms[k - 1], rooms[(k - 1) + 1], bends[k - 1], x, y));
            assert(laid_floor(rooms, bends, x, y));
        }
        lemma_corridor_reachable(map, rooms[k - 1], rooms[k], bends[k - 1]);
        lemma_side_reachable_trans(map, rooms[0].center_spec(), rooms[k - 1].center_spec(), rooms[k].center_spec());
    }
}

/// On a map whose floor includes every room and corridor of a layout, every
/// room's centre can be reached from the first room's centre.
proof fn lemma_laid_connected(map: &TileMap, rooms: Seq<Room>, bends: Seq<bool>)
    requires
        rooms.len() >= 1,
        bends.len() + 1 == rooms.len(),
        forall|x: int, y: int| laid_floor(rooms, bends, x, y) ==> #[trigger] map.walkable(x, y),
    ensures
        rooms_connected(map, rooms),
{
    assert forall|k: int| 0 <= k < rooms.len() implies side_reachable(
        map,
        rooms[0].center_spec(),
        #[trigger] rooms[k].center_spec(),
    ) by {
        lemma_laid_reach(map, rooms, bends, k);
    }
}

/// One attempt at a floor: up to 500 tries to place ten rooms apart from each
/// other, then corridors between consecutive rooms, kept only if every room
/// can be reached from the first (which the corridors always ensure). What it
/// draws and gives is `attempt` of the generator's state.
#[verifier::rlimit(60)]
fn try_generate(rng: &mut SeededRng, seed: u64) -> (r: Option<Dungeon>)
    ensures
        final(rng)@ == attempt(old(rng)@).1,
        r is Some <==> attempt(old(rng)@).0 is Some,
        r matches Some(d) ==> d.generated_from(seed) && (attempt(old(rng)@).0 matches Some(layout)
            && d.laid_out_as(seed, layout.0, layout.1)),
{
    let ghost g0 = rng@;
    let mut map = TileMap::new(MAP_WIDTH, MAP_HEIGHT);
    let mut rooms: Vec<Room> = Vec::new();
    proof {
        assert forall|x: int, y: int| #[trigger] map.kind_at(x, y) != TileKind::Floor by {
            if map.in_bounds_spec(x, y) {
                map.lemma_index(x, y);
            }
        }
    }
    let max_attempts: u32 = 500;
    let mut attempts: u32 = 0;
    while rooms.len() < ROOM_COUNT && attempts < max_attempts
        invariant
            map.wf(),
            map.width == MAP_WIDTH,
            map.height == MAP_HEIGHT,
            tiles_uniform(&map),
            max_attempts == 500,
            attempts <= max_attempts,
            rooms@.len() <= ROOM_COUNT,
            forall|i: int| 0 <= i < rooms@.len() ==> room_placed_ok(#[trigger] rooms@[i], i),
            rooms_apart(rooms@),
            forall|x: int, y: int| #[trigger] map.kind_at(x, y) == TileKind::Floor <==> in_some_room(rooms@, x, y),
            place_rooms(rng@, rooms@, attempts as int) == place_rooms(g0, Seq::empty(), 0),
        decreases max_attempts - attempts,
    {
        let ghost g = rng@;
        let ghost tries = attempts as int;
        attempts = attempts + 1;
        let w = random_through(rng, 5, 12);
        let h = random_through(rng, 5, 10);
        let x = random_below(rng, 1, MAP_WIDTH as i32 - w - 1);
        let y = random_below(rng, 1, MAP_HEIGHT as i32 - h - 1);
        let room = Room { id: rooms.len(), x, y, width: w, height: h };
        proof {
            assert(draw_room(g, rooms@.len() as int) == (room, rng@));
        }
        if overlaps_any(&rooms, &room) {
            proof {
                assert(rooms_overlap(rooms@, room));
            }
            continue;
        }
        let ghost before = map;
        let ghost old_rooms = rooms@;
        carve_room(&mut map, &room);
        rooms.push(room);
        proof {
            assert(!rooms_overlap(old_rooms, room));
            assert(place_rooms(g, old_rooms, tries) == place_rooms(rng@, rooms@, attempts as int));
            assert forall|i: int| 0 <= i < rooms@.len() implies room_placed_ok(#[trigger] rooms@[i], i) by {
                if i < old_rooms.len() {
                    assert(rooms@[i] == old_rooms[i]);
                }
            }
            assert forall|i: int, j: int|
                #![trigger rooms@[i], rooms@[j]]
                0 <= i < rooms@.len() && 0 <= j < rooms@.len() && i != j implies !rooms@[i].overlaps_spec(
                &rooms@[j],
            ) by {
                if i < old_rooms.len() && j < old_rooms.len() {
                    assert(rooms@[i] == old_rooms[i]);
                    assert(rooms@[j] == old_rooms[j]);
                } else if i < old_rooms.len() {
                    assert(rooms@[i] == old_rooms[i]);
                    assert(!old_rooms[i].overlaps_spec(&room));
                } else {
                    assert(rooms@[j] == old_rooms[j]);
                    assert(!old_rooms[j].overlaps_spec(&room));
                }
            }
            assert forall|xx: int, yy: int| #[trigger] map.kind_at(xx, yy) == TileKind::Floor <==> in_some_room(
                rooms@,
                xx,
                yy,
            ) by {
                if room.contains_spec(xx, yy) {
                    assert(rooms@[old_rooms.len() as int] == room);
                    assert(before.in_bounds_spec(xx, yy));
                } else {
                    if in_some_room(rooms@, xx, yy) {
                        let i = choose|i: int| 0 <= i < rooms@.len() && #[trigger] rooms@[i].contains_spec(xx, yy);
                        assert(i < old_rooms.len());
                        assert(old_rooms[i] == rooms@[i]);
                        assert(in_some_room(old_rooms, xx, yy));
                    }
                    if in_some_room(old_rooms, xx, yy) {
                        let i = choose|i: int| 0 <= i < old_rooms.len() && #[trigger] old_rooms[i].contains_spec(xx, yy);
                        assert(rooms@[i] == old_rooms[i]);
                    }
                }
            }
        }
    }
    let ghost g1 = rng@;
    proof {
        assert(place_rooms(g1, rooms@, attempts as int) == (rooms@, g1));
    }
    if rooms.len() < ROOM_COUNT {
        return None;
    }
    let ghost mut bends: Seq<bool> = Seq::empty();
    let mut i: usize = 0;
    while i < rooms.len() - 1
        invariant
            map.wf(),
            map.width == MAP_WIDTH,
            map.height == MAP_HEIGHT,
            tiles_uniform(&map),
            rooms@.len() == ROOM_COUNT,
            i <= rooms@.len() - 1,
            forall|k: int| 0 <= k < rooms@.len() ==> room_placed_ok(#[trigger] rooms@[k], k),
            rooms_apart(rooms@),
            bends.len() == i,
            (bends, rng@) == draw_bends(g1, i as nat),
            forall|x: int, y: int| #[trigger] map.kind_at(x, y) == TileKind::Floor <==> laid_floor(
                rooms@,
                bends,
                x,
                y,
            ),
        decreases rooms@.len() - 1 - i,
    {
        let ghost g = rng@;
        let (ax, ay) = rooms[i].center();
        let (bx, by) = rooms[i + 1].center();
        // A fair coin: rand draws `gen_ratio(1, 2)` exactly as `gen_bool(0.5)`.
        let h_first = random_ratio(rng, 1, 2);
        let ghost before = map;
        let ghost old_bends = bends;
        carve_corridor(&mut map, ax, ay, bx, by, h_first);
        proof {
            bends = bends.push(h_first);
            let ra = rooms@[i as int];
            let rb = rooms@[i + 1];
            assert(room_placed_ok(ra, i as int));
            assert(room_placed_ok(rb, i + 1));
            assert forall|xx: int, yy: int| #[trigger] map.kind_at(xx, yy) == TileKind::Floor <==> laid_floor(
                rooms@,
                bends,
                xx,
                yy,
            ) by {
                if corridor_between(ra, rb, h_first, xx, yy) {
                    lemma_corridor_inside(ra, i as int, rb, i + 1, h_first, xx, yy);
                    assert(before.in_bounds_spec(xx, yy));
                    assert(bends[i as int] == h_first);
                    assert(corridor_between(rooms@[i as int], rooms@[i + 1], bends[i as int], xx, yy));
                    assert(on_some_corridor(rooms@, bends, xx, yy));
                } else {
                    assert(map.kind_at(xx, yy) == before.kind_at(xx, yy));
                    if on_some_corridor(rooms@, bends, xx, yy) {
                        let k = choose|k: int|
                            0 <= k < bends.len() && k + 1 < rooms@.len() && #[trigger] corridor_between(
                                rooms@[k],
                                rooms@[k + 1],
                                bends[k],
                                xx,
                                yy,
                            );
                        assert(k < old_bends.len());
                        assert(bends[k] == old_bends[k]);
                        assert(on_some_corridor(rooms@, old_bends, xx, yy));
                    }
                    if on_some_corridor(rooms@, old_bends, xx, yy) {
                        let k = choose|k: int|
                            0 <= k < old_bends.len() && k + 1 < rooms@.len() && #[trigger] corridor_between(
                                rooms@[k],
                                rooms@[k + 1],
                                old_bends[k],
                                xx,
                                yy,
                            );
                        assert(bends[k] == old_bends[k]);
                    }
                }
            }
        }
        i = i + 1;
    }
    proof {
        assert(attempt(g0) == (Some((rooms@, bends)), rng@));
        assert forall|x: int, y: int| laid_floor(rooms@, bends, x, y) implies #[trigger] map.walkable(x, y) by {
            assert(map.kind_at(x, y) == TileKind::Floor);
        }
        lemma_laid_connected(&map, rooms@, bends);
    }
    // The carving recorded dirty chunks; a fresh floor starts with none.
    let ghost carved = map;
    map.dirty_chunks.clear();
    proof {
        assert forall|xx: int, yy: int| #[trigger] map.kind_at(xx, yy) == carved.kind_at(xx, yy) by {}
        assert forall|x: int, y: int| laid_floor(rooms@, bends, x, y) implies #[trigger] map.walkable(x, y) by {
            assert(carved.kind_at(x, y) == TileKind::Floor);
        }
        lemma_laid_connected(&map, rooms@, bends);
    }
    if !all_rooms_connected(&map, rooms.as_slice()) {
        return None;
    }
    let d = Dungeon { map, rooms, seed };
    proof {
        let rs = d.rooms@;
        assert forall|i: int, x: int, y: int|
            0 <= i < rs.len() && (#[trigger] rs[i]).contains_spec(x, y) implies #[trigger] d.map.kind_at(x, y)
            == TileKind::Floor by {
            assert(in_some_room(rs, x, y));
        }
        assert forall|x: int, y: int| #[trigger] d.map.kind_at(x, y) == TileKind::Floor implies 1 <= x < MAP_WIDTH
            - 2 && 1 <= y < MAP_HEIGHT - 2 by {
            assert(laid_floor(rs, bends, x, y));
            if in_some_room(rs, x, y) {
                let i = choose|i: int| 0 <= i < rs.len() && #[trigger] rs[i].contains_spec(x, y);
                lemma_room_tiles_inside(rs[i], i, x, y);
            } else {
                let k = choose|k: int|
                    0 <= k < bends.len() && k + 1 < rs.len() && #[trigger] corridor_between(
                        rs[k],
                        rs[k + 1],
                        bends[k],
                        x,
                        y,
                    );
                lemma_corridor_inside(rs[k], k, rs[k + 1], k + 1, bends[k], x, y);
            }
        }
        let tv = d.map.tiles_view();
        let lt = laid_tiles(rs, bends);
        assert forall|i: int| 0 <= i < tv.len() implies tv[i] == lt[i] by {
            let x = i % (MAP_WIDTH as int);
            let y = i / (MAP_WIDTH as int);
            assert(0 <= x < MAP_WIDTH && 0 <= y < MAP_HEIGHT);
            assert(d.map.in_bounds_spec(x, y));
            assert(y * (MAP_WIDTH as int) + x == i) by (nonlinear_arith)
                requires
                    x == i % (MAP_WIDTH as int),
                    y == i / (MAP_WIDTH as int),
            ;
            assert(d.map.index_of(x, y) == i);
            assert(d.map.tile_at(x, y) == tv[i]);
            assert(d.map.kind_at(x, y) == tv[i].kind);
        }
        assert(tv =~= lt);
    }
    Some(d)
}


/// Generates a floor from `seed`. Every attempt draws from the one ChaCha8
/// stream seeded with `seed`, and the first attempt that succeeds is returned:
/// the floor is `seed_floor(seed)`, so one seed always gives one floor. An
/// attempt fails only when ten rooms do not fit in 500 tries; the search gives
/// up, with `None`, only after `u64::MAX` failed attempts in a row.
pub fn generate_dungeon(seed: u64) -> (r: Option<Dungeon>)
    ensures
        r is Some <==> seed_floor(seed) is Some,
        r matches Some(d) ==> d.generated_from(seed) && (seed_floor(seed) matches Some(layout)
            && d.laid_out_as(seed, layout.0, layout.1)),
{
    let mut rng = SeededRng::new(seed);
    let mut failed: u64 = 0;
    while failed < u64::MAX
        invariant
            first_floor(rng@, failed as nat) == seed_floor(seed),
        decreases u64::MAX - failed,
    {
        if let Some(d) = try_generate(&mut rng, seed) {
            return Some(d);
        }
        failed = failed + 1;
    }
    None
}

/// One seed gives one floor: two floors that `generate_dungeon` gave for the
/// same seed have the same rooms and the same tiles.
pub proof fn law_one_seed_one_floor(a: &Dungeon, b: &Dungeon, seed: u64)
    requires
        seed_floor(seed) matches Some(layout) && a.laid_out_as(seed, layout.0, layout.1),
        seed_floor(seed) matches Some(layout) && b.laid_out_as(seed, layout.0, layout.1),
    ensures
        a.rooms@ == b.rooms@,
        a.map.tiles_view() == b.map.tiles_view(),
        forall|x: int, y: int| #[trigger] a.map.kind_at(x, y) == b.map.kind_at(x, y),
{
}

/// Consecutive rooms of a generated floor are joined by an L-shaped corridor
/// of floor between their centres: row first or column first, as the floor's
/// bends say.
pub proof fn law_corridors_are_floor(d: &Dungeon, seed: u64, rooms: Seq<Room>, bends: Seq<bool>)
    requires
        d.generated_from(seed),
        d.laid_out_as(seed, rooms, bends),
    ensures
        forall|i: int, x: int, y: int|
            0 <= i < bends.len() && i + 1 < rooms.len() && #[trigger] corridor_between(
                rooms[i],
                rooms[i + 1],
                bends[i],
                x,
                y,
            ) ==> d.map.walkable(x, y),
{
    assert forall|i: int, x: int, y: int|
        0 <= i < bends.len() && i + 1 < rooms.len() && #[trigger] corridor_between(
            rooms[i],
            rooms[i + 1],
            bends[i],
            x,
            y,
        ) implies d.map.walkable(x, y) by {
        assert(room_placed_ok(rooms[i], i));
        assert(room_placed_ok(rooms[i + 1], i + 1));
        lemma_corridor_inside(rooms[i], i, rooms[i + 1], i + 1, bends[i], x, y);
        assert(laid_floor(rooms, bends, x, y));
        let k = y * (MAP_WIDTH as int) + x;
        assert(k % (MAP_WIDTH as int) == x && k / (MAP_WIDTH as int) == y) by (nonlinear_arith)
            requires
                k == y * (MAP_WIDTH as int) + x,
                0 <= x < MAP_WIDTH,
                0 <= y,
        ;
        d.map.lemma_index(x, y);
        assert(d.map.tiles_view()[k] == laid_tiles(rooms, bends)[k]);
    }
}

/// Rats never spawn inside walls: on a generated floor, every tile that
/// `Room::random_interior_point` may draw from one of its rooms is floor.
pub proof fn law_spawn_tiles_are_floor(d: &Dungeon, seed: u64, i: int, x: int, y: int)
    requires
        d.generated_from(seed),
        0 <= i < d.rooms@.len(),
        interior_pick(d.rooms@[i], x, y),
    ensures
        d.map.walkable(x, y),
{
    assert(room_placed_ok(d.rooms@[i], i));
    assert(d.rooms@[i].contains_spec(x, y));
    assert(d.map.kind_at(x, y) == TileKind::Floor);
}

/// The list of dirty chunks never names a chunk twice: `set_floor` adds a
/// chunk only when it is missing, and after it the carved tile's chunk is listed.
pub proof fn law_dirty_chunks_listed_once(dirty: Seq<ChunkCoord>, c: ChunkCoord)
    requires
        dirty.no_duplicates(),
    ensures
        ({
            let after = if dirty.contains(c) {
                dirty
            } else {
                dirty.push(c)
            };
            after.no_duplicates() && after.contains(c)
        }),
{
    if !dirty.contains(c) {
        let after = dirty.push(c);
        assert(after[dirty.len() as int] == c);
        assert forall|i: int, j: int| 0 <= i < after.len() && 0 <= j < after.len() && i != j implies after[i]
            != after[j] by {
            if i < dirty.len() && j < dirty.len() {
                assert(after[i] == dirty[i] && after[j] == dirty[j]);
            } else if i < dirty.len() {
                assert(after[i] == dirty[i]);
            } else {
                assert(after[j] == dirty[j]);
            }
        }
    }
}

/// Rooms kept apart have at least one tile between them: one lies wholly to
/// the left of, right of, above or below the other with a gap of a column or
/// a row; and rooms with such a gap are kept apart.
pub proof fn law_rooms_apart_padding(a: Room, b: Room)
    ensures
        !a.overlaps_spec(&b) <==> (a.x + a.width + 1 <= b.x || b.x + b.width + 1 <= a.x || a.y + a.height + 1
            <= b.y || b.y + b.height + 1 <= a.y),
{
}

/// Between any tile of a room and any tile of another room kept apart from
/// it there is a gap: their columns or their rows differ by at least two, so
/// the two rooms never touch, not even at a corner.
pub proof fn law_rooms_apart_tiles(a: Room, b: Room, ax: int, ay: int, bx: int, by: int)
    requires
        !a.overlaps_spec(&b),
        a.contains_spec(ax, ay),
        b.contains_spec(bx, by),
    ensures
        ax + 2 <= bx || bx + 2 <= ax || ay + 2 <= by || by + 2 <= ay,
{
}

/// The corridor from (ax, ay) to (bx, by) holds both ends and its corner: the
/// tile (bx, ay) when it runs along the row first, (ax, by) otherwise. Each of
/// its tiles lies on the first leg (the row `ay`, or the column `ax`) between
/// the ends, or on the second leg (the column `bx`, or the row `by`).
pub proof fn law_corridor_shape(ax: int, ay: int, bx: int, by: int, h_first: bool, x: int, y: int)
    ensures
        on_corridor(ax, ay, bx, by, h_first, ax, ay),
        on_corridor(ax, ay, bx, by, h_first, bx, by),
        h_first ==> on_corridor(ax, ay, bx, by, h_first, bx, ay),
        !h_first ==> on_corridor(ax, ay, bx, by, h_first, ax, by),
        h_first && on_corridor(ax, ay, bx, by, h_first, x, y) ==> (y == ay && (ax <= x <= bx || bx <= x <= ax))
            || (x == bx && (ay <= y <= by || by <= y <= ay)),
        !h_first && on_corridor(ax, ay, bx, by, h_first, x, y) ==> (x == ax && (ay <= y <= by || by <= y <= ay))
            || (y == by && (ax <= x <= bx || bx <= x <= ax)),
{
}

} // verus!
