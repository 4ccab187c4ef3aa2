//! Shortest-walk search over the floor tiles of a map (A* with octile costs),
//! moving in eight directions without cutting wall corners.

use vstd::prelude::*;

use crate::dungeon::TileMap;
use crate::entity::TileCoord;
use crate::grid::{king_step, lemma_move_closed_holds_reachable, move_closed, move_reachable, path_move};

verus! {

/// Cost of a move along a row or a column (costs are scaled by 10000 so that
/// the diagonal cost, 1.4142, is a whole number).
pub const ORTHO_COST: u64 = 10000;

/// Cost of a diagonal move.
pub const DIAG_COST: u64 = 14142;

/// Cost recorded for a tile the search has not reached.
const UNSEEN: u64 = u64::MAX;

pub open spec fn tc(t: TileCoord) -> (int, int) {
    (t.x as int, t.y as int)
}

/// `path` is what the search returns for a walk from `start` to `goal`: the
/// tiles after `start`, ending on `goal`, each a move from the one before; a
/// search from a tile to itself gives just that tile.
pub open spec fn is_tile_path(map: &TileMap, start: (int, int), goal: (int, int), path: Seq<TileCoord>) -> bool {
    &&& path.len() >= 1
    &&& tc(path.last()) == goal
    &&& start == goal ==> path.len() == 1
    &&& start != goal ==> path_move(map, start, tc(path[0]))
    &&& forall|i: int| #![trigger path[i]] 1 <= i < path.len() ==> path_move(map, tc(path[i - 1]), tc(path[i]))
}

/// The cost of the first `i` moves of the walk `w`.
pub open spec fn prefix_cost(w: Seq<(int, int)>, i: int) -> int
    decreases i,
{
    if i <= 0 {
        0
    } else {
        prefix_cost(w, i - 1) + step_cost(w[i - 1], w[i])
    }
}

/// The cost of the walk `w`: its straight moves cost `ORTHO_COST` each, its
/// diagonal moves `DIAG_COST` each.
pub open spec fn walk_cost(w: Seq<(int, int)>) -> int {
    prefix_cost(w, w.len() - 1)
}

/// The walk that a returned `path` describes from `start`.
pub open spec fn tile_walk(start: (int, int), path: Seq<TileCoord>) -> Seq<(int, int)> {
    seq![start] + path.map_values(|t: TileCoord| tc(t))
}

/// Octile distance between two tiles, scaled like the move costs: diagonal
/// moves for the shorter axis, straight moves for the rest.
pub open spec fn octile_spec(ax: int, ay: int, bx: int, by: int) -> int {
    let dx = if ax >= bx {
        ax - bx
    } else {
        bx - ax
    };
    let dy = if ay >= by {
        ay - by
    } else {
        by - ay
    };
    let mn = if dx < dy {
        dx
    } else {
        dy
    };
    let mx = if dx < dy {
        dy
    } else {
        dx
    };
    DIAG_COST * mn + ORTHO_COST * (mx - mn)
}

fn octile(ax: i32, ay: i32, bx: i32, by: i32) -> (r: u64)
    ensures
        r == octile_spec(ax as int, ay as int, bx as int, by as int),
        r <= DIAG_COST * 0x1_0000_0000,
{
    let dx: u64 = if ax >= bx {
        (ax as i64 - bx as i64) as u64
    } else {
        (bx as i64 - ax as i64) as u64
    };
    let dy: u64 = if ay >= by {
        (ay as i64 - by as i64) as u64
    } else {
        (by as i64 - ay as i64) as u64
    };
    let (mn, mx) = if dx < dy {
        (dx, dy)
    } else {
        (dy, dx)
    };
    DIAG_COST * mn + ORTHO_COST * (mx - mn)
}

/// Both tiles beside the diagonal move from (x, y) by (dx, dy) are floor.
fn diagonal_ok(map: &TileMap, x: i32, y: i32, dx: i32, dy: i32) -> (r: bool)
    requires
        map.wf(),
        i32::MIN <= x + dx <= i32::MAX,
        i32::MIN <= y + dy <= i32::MAX,
    ensures
        r == (map.walkable(x + dx, y as int) && map.walkable(x as int, y + dy)),
{
    map.is_walkable(x + dx, y) && map.is_walkable(x, y + dy)
}

#[derive(Clone, Copy)]
struct OpenNode {
    f: u64,
    g: u64,
    x: i32,
    y: i32,
}

/// The cost of the move from `a` to `b`.
pub open spec fn step_cost(a: (int, int), b: (int, int)) -> int {
    if a.0 != b.0 && a.1 != b.1 {
        DIAG_COST as int
    } else {
        ORTHO_COST as int
    }
}

spec fn g_at(map: &TileMap, gmap: Seq<u64>, x: int, y: int) -> u64 {
    gmap[map.index_of(x, y)]
}

/// The search has reached tile (x, y).
spec fn found(map: &TileMap, gmap: Seq<u64>, x: int, y: int) -> bool {
    map.in_bounds_spec(x, y) && g_at(map, gmap, x, y) != UNSEEN
}

spec fn has_entry(open: Seq<OpenNode>, x: int, y: int, g: u64) -> bool {
    exists|i: int| 0 <= i < open.len() && open[i].x == x && open[i].y == y && open[i].g == g
}

/// Every move out of (x, y) leads to a reached tile whose cost is at most the
/// cost of (x, y) plus the move.
spec fn settled(map: &TileMap, gmap: Seq<u64>, x: int, y: int) -> bool {
    forall|a: int, b: int|
        #[trigger] path_move(map, (x, y), (a, b)) ==> found(map, gmap, a, b) && g_at(map, gmap, a, b) <= g_at(
            map,
            gmap,
            x,
            y,
        ) + step_cost((x, y), (a, b))
}

spec fn count_found(s: Seq<u64>) -> nat
    decreases s.len(),
{
    if s.len() == 0 {
        0
    } else {
        count_found(s.drop_last()) + if s.last() != UNSEEN {
            1nat
        } else {
            0nat
        }
    }
}

spec fn gsum(s: Seq<u64>) -> int
    decreases s.len(),
{
    if s.len() == 0 {
        0
    } else {
        gsum(s.drop_last()) + s.last()
    }
}

proof fn lemma_count_found_update(s: Seq<u64>, i: int, v: u64)
    requires
        0 <= i < s.len(),
    ensures
        count_found(s.update(i, v)) == count_found(s) - (if s[i] != UNSEEN {
            1int
        } else {
            0int
        }) + (if v != UNSEEN {
            1int
        } else {
            0int
        }),
    decreases s.len(),
{
    let t = s.update(i, v);
    if i == s.len() - 1 {
        assert(t.drop_last() == s.drop_last());
    } else {
        assert(t.drop_last() == s.drop_last().update(i, v));
        lemma_count_found_update(s.drop_last(), i, v);
    }
}

proof fn lemma_count_found_le(s: Seq<u64>)
    ensures
        count_found(s) <= s.len(),
    decreases s.len(),
{
    if s.len() > 0 {
        lemma_count_found_le(s.drop_last());
    }
}

proof fn lemma_gsum_update(s: Seq<u64>, i: int, v: u64)
    requires
        0 <= i < s.len(),
    ensures
        gsum(s.update(i, v)) == gsum(s) - s[i] + v,
    decreases s.len(),
{
    let t = s.update(i, v);
    if i == s.len() - 1 {
        assert(t.drop_last() == s.drop_last());
    } else {
        assert(t.drop_last() == s.drop_last().update(i, v));
        lemma_gsum_update(s.drop_last(), i, v);
    }
}

/// What a reached tile satisfies: it is floor, its cost is bounded by the
/// number of reached tiles, and unless it is the start it records the tile it
/// was reached from, a reached tile of lower cost one move away.
spec fn cell_ok(
    map: &TileMap,
    st: (int, int),
    gmap: Seq<u64>,
    came: Seq<Option<TileCoord>>,
    x: int,
    y: int,
) -> bool {
    &&& map.walkable(x, y)
    &&& g_at(map, gmap, x, y) <= DIAG_COST * (count_found(gmap) - 1)
    &&& (x, y) != st ==> match came[map.index_of(x, y)] {
        Some(p) => {
            &&& found(map, gmap, p.x as int, p.y as int)
            &&& g_at(map, gmap, p.x as int, p.y as int) + step_cost(tc(p), (x, y)) <= g_at(map, gmap, x, y)
            &&& path_move(map, tc(p), (x, y))
        },
        None => false,
    }
}

spec fn entry_ok(map: &TileMap, gl: (int, int), gmap: Seq<u64>, e: OpenNode) -> bool {
    &&& found(map, gmap, e.x as int, e.y as int)
    &&& e.g >= g_at(map, gmap, e.x as int, e.y as int)
    &&& e.f == e.g + octile_spec(e.x as int, e.y as int, gl.0, gl.1)
}

/// The invariant of the search from `st` to `gl`.
spec fn search_core(
    map: &TileMap,
    st: (int, int),
    gl: (int, int),
    open: Seq<OpenNode>,
    gmap: Seq<u64>,
    came: Seq<Option<TileCoord>>,
) -> bool {
    &&& map.wf()
    &&& map.width <= i32::MAX
    &&& map.height <= i32::MAX
    &&& gmap.len() == map.tiles_view().len()
    &&& came.len() == gmap.len()
    &&& map.walkable(st.0, st.1)
    &&& map.walkable(gl.0, gl.1)
    &&& st != gl
    &&& g_at(map, gmap, st.0, st.1) == 0
    &&& came[map.index_of(st.0, st.1)] is None
    &&& 1 <= count_found(gmap) <= gmap.len()
    &&& forall|i: int| 0 <= i < open.len() ==> entry_ok(map, gl, gmap, #[trigger] open[i])
    &&& forall|x: int, y: int| #[trigger] found(map, gmap, x, y) ==> cell_ok(map, st, gmap, came, x, y)
    &&& found(map, gmap, gl.0, gl.1) ==> has_entry(open, gl.0, gl.1, g_at(map, gmap, gl.0, gl.1))
}

/// Every reached tile other than `skip` has an open entry with its current
/// cost, or all its moves lead to reached tiles.
spec fn frontier_ok(map: &TileMap, open: Seq<OpenNode>, gmap: Seq<u64>, skip: Option<(int, int)>) -> bool {
    forall|x: int, y: int|
        #[trigger] found(map, gmap, x, y) && skip != Some((x, y)) ==> has_entry(
            open,
            x,
            y,
            g_at(map, gmap, x, y),
        ) || settled(map, gmap, x, y)
}

spec fn measure(open: Seq<OpenNode>, gmap: Seq<u64>) -> int {
    open.len() + 9 * gsum(gmap)
}


proof fn lemma_has_entry_push(open: Seq<OpenNode>, e: OpenNode)
    ensures
        forall|x: int, y: int, g: u64| has_entry(open, x, y, g) ==> #[trigger] has_entry(open.push(e), x, y, g),
        has_entry(open.push(e), e.x as int, e.y as int, e.g),
{
    assert forall|x: int, y: int, g: u64| has_entry(open, x, y, g) implies #[trigger] has_entry(
        open.push(e),
        x,
        y,
        g,
    ) by {
        let i = choose|i: int| 0 <= i < open.len() && open[i].x == x && open[i].y == y && open[i].g == g;
        assert(open.push(e)[i] == open[i]);
    }
    assert(open.push(e)[open.len() as int] == e);
}

/// Relaxes the move from the expanded tile (x, y), reached at cost `g`, by
/// (dx, dy): a cheaper way to the tile it leads to is recorded, with the tile
/// it came from and a new open entry.
#[verifier::rlimit(60)]
fn relax(
    map: &TileMap,
    start: TileCoord,
    goal: TileCoord,
    open: &mut Vec<OpenNode>,
    gmap: &mut Vec<u64>,
    came: &mut Vec<Option<TileCoord>>,
    x: i32,
    y: i32,
    g: u64,
    dx: i32,
    dy: i32,
)
    requires
        search_core(map, tc(start), tc(goal), old(open)@, old(gmap)@, old(came)@),
        frontier_ok(map, old(open)@, old(gmap)@, Some((x as int, y as int))),
        found(map, old(gmap)@, x as int, y as int),
        g == g_at(map, old(gmap)@, x as int, y as int),
        -1 <= dx <= 1,
        -1 <= dy <= 1,
        !(dx == 0 && dy == 0),
    ensures
        search_core(map, tc(start), tc(goal), final(open)@, final(gmap)@, final(came)@),
        frontier_ok(map, final(open)@, final(gmap)@, Some((x as int, y as int))),
        g_at(map, final(gmap)@, x as int, y as int) == g,
        forall|a: int, b: int|
            found(map, old(gmap)@, a, b) ==> #[trigger] found(map, final(gmap)@, a, b) && g_at(
                map,
                final(gmap)@,
                a,
                b,
            ) <= g_at(map, old(gmap)@, a, b),
        path_move(map, (x as int, y as int), (x + dx, y + dy)) ==> found(map, final(gmap)@, x + dx, y + dy)
            && g_at(map, final(gmap)@, x + dx, y + dy) <= g + step_cost(
            (x as int, y as int),
            (x + dx, y + dy),
        ),
        measure(final(open)@, final(gmap)@) <= measure(old(open)@, old(gmap)@),
{
    let ghost st = tc(start);
    let ghost gl = tc(goal);
    let ghost q = (x as int, y as int);
    let ghost og = gmap@;
    let ghost oo = open@;
    let ghost oc = came@;
    proof {
        assert(cell_ok(map, st, og, oc, x as int, y as int));
        map.lemma_index(x as int, y as int);
    }
    let nx = x + dx;
    let ny = y + dy;
    if !map.is_walkable(nx, ny) {
        return;
    }
    let is_diag = dx != 0 && dy != 0;
    if is_diag && !diagonal_ok(map, x, y, dx, dy) {
        return;
    }
    let step = if is_diag {
        DIAG_COST
    } else {
        ORTHO_COST
    };
    proof {
        lemma_count_found_le(og);
        assert(g <= DIAG_COST * (count_found(og) - 1));
        assert(count_found(og) <= 0xffff_ffff);
    }
    let ng = g + step;
    let ni = map.index(nx, ny).unwrap();
    let prev = gmap[ni];
    let ghost n = (nx as int, ny as int);
    proof {
        assert(path_move(map, q, n));
        assert(step == step_cost(q, n));
    }
    if ng < prev {
        proof {
            lemma_count_found_update(og, ni as int, ng);
            lemma_gsum_update(og, ni as int, ng);
            map.lemma_index(st.0, st.1);
            if n == st {
                assert(g_at(map, og, st.0, st.1) == 0);
            }
        }
        gmap.set(ni, ng);
        came.set(ni, Some(TileCoord { x, y }));
        let h = octile(nx, ny, goal.x, goal.y);
        let e = OpenNode { f: ng + h, g: ng, x: nx, y: ny };
        open.push(e);
        proof {
            lemma_has_entry_push(oo, e);
            let ng_ = gmap@;
            // Only tile n changed its cost.
            assert forall|a: int, b: int| map.in_bounds_spec(a, b) implies #[trigger] g_at(map, ng_, a, b) == if (a, b)
                == n {
                ng
            } else {
                g_at(map, og, a, b)
            } by {
                map.lemma_index(a, b);
                if map.index_of(a, b) == ni as int {
                    crate::dungeon::lemma_index_injective(map.width as int, a, b, n.0, n.1);
                }
            }
            assert forall|a: int, b: int| map.in_bounds_spec(a, b) && (a, b) != n implies came@[map.index_of(
                a,
                b,
            )] == oc[map.index_of(a, b)] by {
                map.lemma_index(a, b);
                if map.index_of(a, b) == ni as int {
                    crate::dungeon::lemma_index_injective(map.width as int, a, b, n.0, n.1);
                }
            }
            assert(came@[ni as int] == Some(TileCoord { x, y }));
            assert forall|a: int, b: int| found(map, og, a, b) implies #[trigger] found(map, ng_, a, b) by {}
            assert forall|a: int, b: int| #[trigger] found(map, ng_, a, b) implies cell_ok(
                map,
                st,
                ng_,
                came@,
                a,
                b,
            ) by {
                assert(count_found(ng_) >= count_found(og));
                if (a, b) != n {
                    assert(found(map, og, a, b));
                    assert(cell_ok(map, st, og, oc, a, b));
                    assert(g_at(map, ng_, a, b) == g_at(map, og, a, b));
                    if (a, b) != st {
                        assert(came@[map.index_of(a, b)] == oc[map.index_of(a, b)]);
                        let p = oc[map.index_of(a, b)]->Some_0;
                        assert(found(map, og, p.x as int, p.y as int));
                        assert(g_at(map, ng_, p.x as int, p.y as int) <= g_at(map, og, p.x as int, p.y as int));
                    }
                } else {
                    assert(g_at(map, ng_, a, b) == ng);
                    if prev != UNSEEN {
                        assert(found(map, og, n.0, n.1));
                        assert(cell_ok(map, st, og, oc, n.0, n.1));
                    }
                    assert(g_at(map, ng_, x as int, y as int) == g);
                    assert(found(map, ng_, x as int, y as int));
                }
            }
            assert forall|i: int| 0 <= i < open@.len() implies entry_ok(map, gl, ng_, #[trigger] open@[i]) by {
                if i < oo.len() {
                    assert(open@[i] == oo[i]);
                    assert(entry_ok(map, gl, og, oo[i]));
                }
            }
            assert forall|a: int, b: int|
                #[trigger] found(map, ng_, a, b) && Some(q) != Some((a, b)) implies has_entry(
                open@,
                a,
                b,
                g_at(map, ng_, a, b),
            ) || settled(map, ng_, a, b) by {
                if (a, b) != n {
                    assert(found(map, og, a, b));
                    if !has_entry(oo, a, b, g_at(map, og, a, b)) {
                        assert(settled(map, og, a, b));
                        assert forall|c: int, d: int| #[trigger] path_move(map, (a, b), (c, d)) implies found(
                            map,
                            ng_,
                            c,
                            d,
                        ) by {
                            assert(found(map, og, c, d));
                        }
                    }
                }
            }
            assert(frontier_ok(map, open@, ng_, Some(q)));
            if found(map, ng_, gl.0, gl.1) {
                if gl != n {
                    assert(found(map, og, gl.0, gl.1));
                }
            }
            assert(n != st);
            assert(g_at(map, ng_, st.0, st.1) == 0);
            assert(came@[map.index_of(st.0, st.1)] == oc[map.index_of(st.0, st.1)]);
            lemma_count_found_le(ng_);
            assert(search_core(map, st, gl, open@, ng_, came@));
        }
    }
}


spec fn dir_spec(k: int) -> (int, int) {
    if k == 0 {
        (1, 0)
    } else if k == 1 {
        (-1, 0)
    } else if k == 2 {
        (0, 1)
    } else if k == 3 {
        (0, -1)
    } else if k == 4 {
        (1, 1)
    } else if k == 5 {
        (1, -1)
    } else if k == 6 {
        (-1, 1)
    } else {
        (-1, -1)
    }
}

/// The eight move directions, in the order the search tries them.
fn dir(k: usize) -> (r: (i32, i32))
    requires
        k < 8,
    ensures
        (r.0 as int, r.1 as int) == dir_spec(k as int),
{
    match k {
        0 => (1, 0),
        1 => (-1, 0),
        2 => (0, 1),
        3 => (0, -1),
        4 => (1, 1),
        5 => (1, -1),
        6 => (-1, 1),
        _ => (-1, -1),
    }
}

proof fn lemma_king_step_dir(a: (int, int), b: (int, int))
    requires
        king_step(a, b),
    ensures
        exists|k: int| 0 <= k < 8 && (b.0 - a.0, b.1 - a.1) == #[trigger] dir_spec(k),
{
    let d = (b.0 - a.0, b.1 - a.1);
    if d == dir_spec(0) {
    } else if d == dir_spec(1) {
    } else if d == dir_spec(2) {
    } else if d == dir_spec(3) {
    } else if d == dir_spec(4) {
    } else if d == dir_spec(5) {
    } else if d == dir_spec(6) {
    } else {
        assert(d == dir_spec(7));
    }
}

/// Expands tile (x, y), reached at cost `g`: relaxes its moves in all eight
/// directions, after which every move out of it leads to a reached tile.
fn expand(
    map: &TileMap,
    start: TileCoord,
    goal: TileCoord,
    open: &mut Vec<OpenNode>,
    gmap: &mut Vec<u64>,
    came: &mut Vec<Option<TileCoord>>,
    x: i32,
    y: i32,
    g: u64,
)
    requires
        search_core(map, tc(start), tc(goal), old(open)@, old(gmap)@, old(came)@),
        frontier_ok(map, old(open)@, old(gmap)@, Some((x as int, y as int))),
        found(map, old(gmap)@, x as int, y as int),
        g == g_at(map, old(gmap)@, x as int, y as int),
    ensures
        search_core(map, tc(start), tc(goal), final(open)@, final(gmap)@, final(came)@),
        frontier_ok(map, final(open)@, final(gmap)@, None),
        measure(final(open)@, final(gmap)@) <= measure(old(open)@, old(gmap)@),
{
    let ghost q = (x as int, y as int);
    let mut k: usize = 0;
    while k < 8
        invariant
            search_core(map, tc(start), tc(goal), open@, gmap@, came@),
            frontier_ok(map, open@, gmap@, Some(q)),
            q == (x as int, y as int),
            found(map, gmap@, x as int, y as int),
            g == g_at(map, gmap@, x as int, y as int),
            measure(open@, gmap@) <= measure(old(open)@, old(gmap)@),
            k <= 8,
            forall|j: int|
                0 <= j < k && path_move(map, q, (x + dir_spec(j).0, y + dir_spec(j).1)) ==> found(
                    map,
                    gmap@,
                    x + (#[trigger] dir_spec(j)).0,
                    y + dir_spec(j).1,
                ) && g_at(map, gmap@, x + dir_spec(j).0, y + dir_spec(j).1) <= g + step_cost(
                    q,
                    (x + dir_spec(j).0, y + dir_spec(j).1),
                ),
        decreases 8 - k,
    {
        let (dx, dy) = dir(k);
        let ghost before = gmap@;
        relax(map, start, goal, open, gmap, came, x, y, g, dx, dy);
        proof {
            assert forall|j: int|
                0 <= j < k + 1 && path_move(map, q, (x + dir_spec(j).0, y + dir_spec(j).1)) implies found(
                map,
                gmap@,
                x + (#[trigger] dir_spec(j)).0,
                y + dir_spec(j).1,
            ) && g_at(map, gmap@, x + dir_spec(j).0, y + dir_spec(j).1) <= g + step_cost(
                q,
                (x + dir_spec(j).0, y + dir_spec(j).1),
            ) by {
                if j < k {
                    assert(found(map, before, x + dir_spec(j).0, y + dir_spec(j).1));
                }
            }
        }
        k = k + 1;
    }
    proof {
        assert(settled(map, gmap@, q.0, q.1)) by {
            assert forall|a: int, b: int| #[trigger] path_move(map, (q.0, q.1), (a, b)) implies found(
                map,
                gmap@,
                a,
                b,
            ) && g_at(map, gmap@, a, b) <= g_at(map, gmap@, q.0, q.1) + step_cost((q.0, q.1), (a, b)) by {
                lemma_king_step_dir(q, (a, b));
                let j = choose|j: int| 0 <= j < 8 && (a - q.0, b - q.1) == #[trigger] dir_spec(j);
                assert(path_move(map, q, (x + dir_spec(j).0, y + dir_spec(j).1)));
            }
        }
        assert forall|a: int, b: int|
            #[trigger] found(map, gmap@, a, b) && None::<(int, int)> != Some((a, b)) implies has_entry(
            open@,
            a,
            b,
            g_at(map, gmap@, a, b),
        ) || settled(map, gmap@, a, b) by {
            if (a, b) != q {
                assert(Some(q) != Some((a, b)));
            }
        }
    }
}


proof fn lemma_gsum_nonneg(s: Seq<u64>)
    ensures
        gsum(s) >= 0,
    decreases s.len(),
{
    if s.len() > 0 {
        lemma_gsum_nonneg(s.drop_last());
    }
}

proof fn lemma_has_entry_remove(open: Seq<OpenNode>, k: int, x: int, y: int, g: u64)
    requires
        0 <= k < open.len(),
        has_entry(open, x, y, g),
        !(open[k].x == x && open[k].y == y && open[k].g == g),
    ensures
        has_entry(open.remove(k), x, y, g),
{
    let i = choose|i: int| 0 <= i < open.len() && open[i].x == x && open[i].y == y && open[i].g == g;
    if i < k {
        assert(open.remove(k)[i] == open[i]);
    } else {
        assert(open.remove(k)[i - 1] == open[i]);
    }
}

/// Taking entry `k` (not on the goal) out of the open list keeps the invariant,
/// except that its tile may need expanding; a stale entry needs nothing.
proof fn lemma_pop(
    map: &TileMap,
    st: (int, int),
    gl: (int, int),
    open: Seq<OpenNode>,
    gmap: Seq<u64>,
    came: Seq<Option<TileCoord>>,
    k: int,
)
    requires
        search_core(map, st, gl, open, gmap, came),
        frontier_ok(map, open, gmap, None),
        0 <= k < open.len(),
        !(open[k].x == gl.0 && open[k].y == gl.1),
    ensures
        search_core(map, st, gl, open.remove(k), gmap, came),
        frontier_ok(map, open.remove(k), gmap, Some((open[k].x as int, open[k].y as int))),
        open[k].g > g_at(map, gmap, open[k].x as int, open[k].y as int) ==> frontier_ok(
            map,
            open.remove(k),
            gmap,
            None,
        ),
        found(map, gmap, open[k].x as int, open[k].y as int),
        open[k].g >= g_at(map, gmap, open[k].x as int, open[k].y as int),
        measure(open.remove(k), gmap) < measure(open, gmap),
{
    let e = open[k];
    let r = open.remove(k);
    assert(entry_ok(map, gl, gmap, open[k]));
    assert forall|i: int| 0 <= i < r.len() implies entry_ok(map, gl, gmap, #[trigger] r[i]) by {
        if i < k {
            assert(r[i] == open[i]);
        } else {
            assert(r[i] == open[i + 1]);
        }
    }
    if found(map, gmap, gl.0, gl.1) {
        lemma_has_entry_remove(open, k, gl.0, gl.1, g_at(map, gmap, gl.0, gl.1));
    }
    assert forall|x: int, y: int|
        #[trigger] found(map, gmap, x, y) && Some((e.x as int, e.y as int)) != Some((x, y)) implies has_entry(
        r,
        x,
        y,
        g_at(map, gmap, x, y),
    ) || settled(map, gmap, x, y) by {
        assert(None::<(int, int)> != Some((x, y)));
        if has_entry(open, x, y, g_at(map, gmap, x, y)) {
            lemma_has_entry_remove(open, k, x, y, g_at(map, gmap, x, y));
        }
    }
    if e.g > g_at(map, gmap, e.x as int, e.y as int) {
        assert forall|x: int, y: int|
            #[trigger] found(map, gmap, x, y) && None::<(int, int)> != Some((x, y)) implies has_entry(
            r,
            x,
            y,
            g_at(map, gmap, x, y),
        ) || settled(map, gmap, x, y) by {
            if has_entry(open, x, y, g_at(map, gmap, x, y)) {
                lemma_has_entry_remove(open, k, x, y, g_at(map, gmap, x, y));
            }
        }
    }
}

/// Index of an open entry of least estimated total cost.
fn min_f_index(open: &Vec<OpenNode>) -> (k: usize)
    requires
        open@.len() > 0,
    ensures
        k < open@.len(),
        forall|j: int| 0 <= j < open@.len() ==> open@[k as int].f <= (#[trigger] open@[j]).f,
{
    let mut best: usize = 0;
    let mut i: usize = 1;
    while i < open.len()
        invariant
            0 < i <= open@.len(),
            best < i,
            forall|j: int| 0 <= j < i ==> open@[best as int].f <= (#[trigger] open@[j]).f,
        decreases open@.len() - i,
    {
        if open[i].f < open[best].f {
            best = i;
        }
        i = i + 1;
    }
    best
}

/// The step from `a` to `b` follows a recorded link: `a` is reached and its
/// cost plus the move is at most the cost of `b`.
spec fn link(map: &TileMap, gmap: Seq<u64>, a: (int, int), b: (int, int)) -> bool {
    found(map, gmap, a.0, a.1) && g_at(map, gmap, a.0, a.1) + step_cost(a, b) <= g_at(map, gmap, b.0, b.1)
}

/// Follows the recorded tiles back from the goal to the start and returns the
/// tiles after the start, in walking order.
fn reconstruct(
    map: &TileMap,
    start: TileCoord,
    goal: TileCoord,
    gmap: &Vec<u64>,
    came: &Vec<Option<TileCoord>>,
) -> (r: Vec<TileCoord>)
    requires
        map.wf(),
        gmap@.len() == map.tiles_view().len(),
        came@.len() == gmap@.len(),
        tc(start) != tc(goal),
        came@[map.index_of(start.x as int, start.y as int)] is None,
        map.in_bounds_spec(start.x as int, start.y as int),
        forall|x: int, y: int| #[trigger] found(map, gmap@, x, y) ==> cell_ok(map, tc(start), gmap@, came@, x, y),
        found(map, gmap@, goal.x as int, goal.y as int),
    ensures
        is_tile_path(map, tc(start), tc(goal), r@),
        link(map, gmap@, tc(start), tc(r@[0])),
        forall|i: int| #![trigger r@[i]] 1 <= i < r@.len() ==> link(map, gmap@, tc(r@[i - 1]), tc(r@[i])),
{
    let ghost st = tc(start);
    let ghost gl = tc(goal);
    let mut rev: Vec<TileCoord> = Vec::new();
    let mut cur = goal;
    let mut done = false;
    while !done
        invariant
            map.wf(),
            gmap@.len() == map.tiles_view().len(),
            came@.len() == gmap@.len(),
            st != gl,
            st == tc(start),
            gl == tc(goal),
            came@[map.index_of(st.0, st.1)] is None,
            map.in_bounds_spec(st.0, st.1),
            forall|x: int, y: int| #[trigger] found(map, gmap@, x, y) ==> cell_ok(map, st, gmap@, came@, x, y),
            found(map, gmap@, cur.x as int, cur.y as int),
            done ==> tc(cur) == st,
            rev@.len() == 0 ==> cur == goal,
            rev@.len() > 0 ==> tc(rev@[0]) == gl && path_move(map, tc(cur), tc(rev@.last())) && link(
                map,
                gmap@,
                tc(cur),
                tc(rev@.last()),
            ),
            forall|i: int|
                #![trigger rev@[i]]
                1 <= i < rev@.len() ==> path_move(map, tc(rev@[i]), tc(rev@[i - 1])) && link(
                    map,
                    gmap@,
                    tc(rev@[i]),
                    tc(rev@[i - 1]),
                ),
        decreases (if done {
            0
        } else {
            g_at(map, gmap@, cur.x as int, cur.y as int) + 1
        }),
    {
        let ci = map.index(cur.x, cur.y).unwrap();
        match came[ci] {
            Some(prev) => {
                proof {
                    assert(cell_ok(map, st, gmap@, came@, cur.x as int, cur.y as int));
                    if tc(cur) == st {
                        assert(ci == map.index_of(st.0, st.1));
                    }
                    assert(tc(cur) != st);
                    assert(came@[map.index_of(cur.x as int, cur.y as int)] == Some(prev));
                }
                let ghost old_rev = rev@;
                rev.push(cur);
                proof {
                    assert forall|i: int| #![trigger rev@[i]] 1 <= i < rev@.len() implies path_move(
                        map,
                        tc(rev@[i]),
                        tc(rev@[i - 1]),
                    ) && link(map, gmap@, tc(rev@[i]), tc(rev@[i - 1])) by {
                        if i < old_rev.len() {
                            assert(rev@[i] == old_rev[i]);
                            assert(rev@[i - 1] == old_rev[i - 1]);
                        } else {
                            assert(rev@[i - 1] == old_rev.last());
                        }
                    }
                    if old_rev.len() == 0 {
                        assert(rev@[0] == goal);
                    } else {
                        assert(rev@[0] == old_rev[0]);
                    }
                }
                cur = prev;
            },
            None => {
                proof {
                    assert(cell_ok(map, st, gmap@, came@, cur.x as int, cur.y as int));
                }
                done = true;
            },
        }
    }
    let mut out: Vec<TileCoord> = Vec::new();
    let len = rev.len();
    let mut t: usize = 0;
    while t < len
        invariant
            len == rev@.len(),
            len > 0,
            t <= len,
            out@.len() == t,
            forall|u: int| 0 <= u < t ==> #[trigger] out@[u] == rev@[len - 1 - u],
        decreases len - t,
    {
        out.push(rev[len - 1 - t]);
        t = t + 1;
    }
    proof {
        assert(out@.last() == rev@[0]);
        assert(out@[0] == rev@.last());
        assert forall|i: int| #![trigger out@[i]] 1 <= i < out@.len() implies path_move(
            map,
            tc(out@[i - 1]),
            tc(out@[i]),
        ) && link(map, gmap@, tc(out@[i - 1]), tc(out@[i])) by {
            assert(out@[i - 1] == rev@[len - i]);
            assert(out@[i] == rev@[len - 1 - i]);
            assert(path_move(map, tc(rev@[len - i]), tc(rev@[len - i - 1])));
        }
    }
    out
}

/// Along a walk of recorded links from the start (cost 0), each prefix costs
/// at most the recorded cost of the tile it ends on.
proof fn lemma_links_bound_cost(map: &TileMap, gmap: Seq<u64>, w: Seq<(int, int)>, i: int)
    requires
        0 <= i < w.len(),
        g_at(map, gmap, w[0].0, w[0].1) == 0,
        forall|k: int| #![trigger w[k]] 1 <= k < w.len() ==> link(map, gmap, w[k - 1], w[k]),
    ensures
        prefix_cost(w, i) <= g_at(map, gmap, w[i].0, w[i].1),
    decreases i,
{
    if i > 0 {
        lemma_links_bound_cost(map, gmap, w, i - 1);
        assert(link(map, gmap, w[i - 1], w[i]));
    }
}

/// The octile distance never drops by more than the cost of one move.
proof fn lemma_octile_consistent(a: (int, int), b: (int, int), g: (int, int))
    requires
        king_step(a, b),
    ensures
        octile_spec(a.0, a.1, g.0, g.1) <= step_cost(a, b) + octile_spec(b.0, b.1, g.0, g.1),
{
}

/// The octile distance from any tile of a walk to its end is at most the cost
/// of the rest of the walk.
proof fn lemma_octile_admissible(map: &TileMap, w: Seq<(int, int)>, i: int)
    requires
        crate::grid::is_move_walk(map, w),
        0 <= i < w.len(),
    ensures
        octile_spec(w[i].0, w[i].1, w.last().0, w.last().1) <= walk_cost(w) - prefix_cost(w, i),
    decreases w.len() - i,
{
    if i < w.len() - 1 {
        lemma_octile_admissible(map, w, i + 1);
        assert(path_move(map, w[i], w[i + 1]));
        lemma_octile_consistent(w[i], w[i + 1], w.last());
    }
}

/// While the search runs, for any walk from the start to the goal some open
/// entry estimates a total cost no higher than that walk's cost.
proof fn lemma_entry_within(
    map: &TileMap,
    st: (int, int),
    gl: (int, int),
    open: Seq<OpenNode>,
    gmap: Seq<u64>,
    came: Seq<Option<TileCoord>>,
    w: Seq<(int, int)>,
    i: int,
)
    requires
        search_core(map, st, gl, open, gmap, came),
        frontier_ok(map, open, gmap, None),
        crate::grid::is_move_walk(map, w),
        w[0] == st,
        w.last() == gl,
        0 <= i < w.len(),
        found(map, gmap, w[i].0, w[i].1),
        g_at(map, gmap, w[i].0, w[i].1) <= prefix_cost(w, i),
    ensures
        exists|j: int| 0 <= j < open.len() && (#[trigger] open[j]).f <= walk_cost(w),
    decreases w.len() - i,
{
    let (x, y) = w[i];
    lemma_octile_admissible(map, w, i);
    if i == w.len() - 1 {
        assert(has_entry(open, gl.0, gl.1, g_at(map, gmap, gl.0, gl.1)));
        let j = choose|j: int|
            0 <= j < open.len() && open[j].x == gl.0 && open[j].y == gl.1 && open[j].g == g_at(map, gmap, gl.0, gl.1);
        assert(entry_ok(map, gl, gmap, open[j]));
    } else {
        assert(found(map, gmap, x, y) && None::<(int, int)> != Some((x, y)));
        if has_entry(open, x, y, g_at(map, gmap, x, y)) {
            let j = choose|j: int|
                0 <= j < open.len() && open[j].x == x && open[j].y == y && open[j].g == g_at(map, gmap, x, y);
            assert(entry_ok(map, gl, gmap, open[j]));
        } else {
            assert(settled(map, gmap, x, y));
            assert(path_move(map, (x, y), w[i + 1]));
            lemma_entry_within(map, st, gl, open, gmap, came, w, i + 1);
        }
    }
}

proof fn lemma_tile_path_reachable(map: &TileMap, st: (int, int), gl: (int, int), p: Seq<TileCoord>)
    requires
        is_tile_path(map, st, gl, p),
        st != gl,
    ensures
        move_reachable(map, st, gl),
{
    let w = seq![st] + p.map_values(|t: TileCoord| tc(t));
    assert(w.len() == p.len() + 1);
    assert forall|i: int| #![trigger w[i]] 1 <= i < w.len() implies path_move(map, w[i - 1], w[i]) by {
        assert(w[i] == tc(p[i - 1]));
        if i >= 2 {
            assert(w[i - 1] == tc(p[i - 2]));
        }
    }
    assert(crate::grid::is_move_walk(map, w));
    assert(w[0] == st);
    assert(w.last() == tc(p.last()));
}

/// When the goal's entry is taken with the least estimate, the walk that the
/// recorded links give costs no more than any walk from the start to the goal.
proof fn lemma_result_optimal(
    map: &TileMap,
    st: (int, int),
    gl: (int, int),
    before: Seq<OpenNode>,
    gmap: Seq<u64>,
    came: Seq<Option<TileCoord>>,
    k: int,
    path: Seq<TileCoord>,
)
    requires
        search_core(map, st, gl, before, gmap, came),
        frontier_ok(map, before, gmap, None),
        0 <= k < before.len(),
        forall|j: int| 0 <= j < before.len() ==> before[k].f <= (#[trigger] before[j]).f,
        before[k].x == gl.0 && before[k].y == gl.1,
        is_tile_path(map, st, gl, path),
        link(map, gmap, st, tc(path[0])),
        forall|i: int| #![trigger path[i]] 1 <= i < path.len() ==> link(map, gmap, tc(path[i - 1]), tc(path[i])),
    ensures
        forall|w: Seq<(int, int)>|
            crate::grid::is_move_walk(map, w) && w[0] == st && w.last() == gl ==> walk_cost(tile_walk(st, path))
                <= walk_cost(w),
{
    let e = before[k];
    assert(entry_ok(map, gl, gmap, e));
    let walk = tile_walk(st, path);
    assert forall|kk: int| #![trigger walk[kk]] 1 <= kk < walk.len() implies link(map, gmap, walk[kk - 1], walk[kk]) by {
        assert(walk[kk] == tc(path[kk - 1]));
        if kk >= 2 {
            assert(walk[kk - 1] == tc(path[kk - 2]));
        }
    }
    assert(walk[0] == st);
    lemma_links_bound_cost(map, gmap, walk, walk.len() - 1);
    assert(walk.last() == tc(path.last()));
    assert(e.f == e.g);
    assert forall|w: Seq<(int, int)>|
        crate::grid::is_move_walk(map, w) && w[0] == st && w.last() == gl implies walk_cost(walk) <= walk_cost(w) by {
        lemma_entry_within(map, st, gl, before, gmap, came, w, 0);
        let j = choose|j: int| 0 <= j < before.len() && (#[trigger] before[j]).f <= walk_cost(w);
        assert(e.f <= before[j].f);
    }
}

/// Searches a walk over floor from tile `start` to tile `goal` by A* with
/// octile costs, moving in eight directions without cutting wall corners.
/// Returns the tiles of the walk after `start`, ending on `goal` (just `goal`
/// when the two coincide), or `None` when either tile is not floor or no such
/// walk exists.
pub fn find_tile_path(map: &TileMap, start: TileCoord, goal: TileCoord) -> (r: Option<Vec<TileCoord>>)
    requires
        map.wf(),
        map.width <= i32::MAX,
        map.height <= i32::MAX,
    ensures
        r is Some <==> (map.walkable(start.x as int, start.y as int) && map.walkable(goal.x as int, goal.y as int)
            && move_reachable(map, tc(start), tc(goal))),
        r matches Some(p) ==> is_tile_path(map, tc(start), tc(goal), p@),
        r matches Some(p) ==> tc(start) != tc(goal) ==> forall|w: Seq<(int, int)>|
            crate::grid::is_move_walk(map, w) && w[0] == tc(start) && w.last() == tc(goal) ==> walk_cost(
                tile_walk(tc(start), p@),
            ) <= walk_cost(w),
{
    let ghost st = tc(start);
    let ghost gl = tc(goal);
    if !map.is_walkable(start.x, start.y) || !map.is_walkable(goal.x, goal.y) {
        return None;
    }
    if start.x == goal.x && start.y == goal.y {
        let mut only: Vec<TileCoord> = Vec::new();
        only.push(goal);
        proof {
            let w = seq![st];
            assert(crate::grid::is_move_walk(map, w));
        }
        return Some(only);
    }
    let n = map.tiles.len();
    let mut gmap: Vec<u64> = Vec::new();
    let mut came: Vec<Option<TileCoord>> = Vec::new();
    let mut i: usize = 0;
    while i < n
        invariant
            n == map.tiles_view().len(),
            i <= n,
            gmap@.len() == i,
            came@.len() == i,
            count_found(gmap@) == 0,
            forall|j: int| 0 <= j < i ==> gmap@[j] == UNSEEN && came@[j] is None,
        decreases n - i,
    {
        proof {
            assert(gmap@.push(UNSEEN).drop_last() == gmap@);
        }
        gmap.push(UNSEEN);
        came.push(None);
        i = i + 1;
    }
    let si = map.index(start.x, start.y).unwrap();
    proof {
        lemma_count_found_update(gmap@, si as int, 0);
    }
    gmap.set(si, 0);
    let h0 = octile(start.x, start.y, goal.x, goal.y);
    let mut open: Vec<OpenNode> = Vec::new();
    open.push(OpenNode { f: h0, g: 0, x: start.x, y: start.y });
    proof {
        assert forall|a: int, b: int| #[trigger] found(map, gmap@, a, b) implies (a, b) == st by {
            map.lemma_index(a, b);
            if map.index_of(a, b) == si as int {
                crate::dungeon::lemma_index_injective(map.width as int, a, b, st.0, st.1);
            }
        }
        assert(open@[0].x == start.x);
        assert(has_entry(open@, st.0, st.1, 0));
        lemma_count_found_le(gmap@);
        assert(search_core(map, st, gl, open@, gmap@, came@));
        assert(frontier_ok(map, open@, gmap@, None));
        lemma_gsum_nonneg(gmap@);
    }
    loop
        invariant
            search_core(map, st, gl, open@, gmap@, came@),
            frontier_ok(map, open@, gmap@, None),
            st == tc(start),
            gl == tc(goal),
        decreases measure(open@, gmap@),
    {
        proof {
            lemma_gsum_nonneg(gmap@);
        }
        let ghost m0 = measure(open@, gmap@);
        if open.len() == 0 {
            proof {
                let s = |a: int, b: int| found(map, gmap@, a, b);
                assert(!found(map, gmap@, gl.0, gl.1));
                assert(move_closed(map, s)) by {
                    assert forall|x: int, y: int, a: int, b: int|
                        #![trigger s(x, y), s(a, b)]
                        s(x, y) && path_move(map, (x, y), (a, b)) implies s(a, b) by {
                        assert(found(map, gmap@, x, y) && None::<(int, int)> != Some((x, y)));
                        assert(settled(map, gmap@, x, y));
                    }
                }
                if move_reachable(map, st, gl) {
                    lemma_move_closed_holds_reachable(map, s, st, gl);
                }
            }
            return None;
        }
        let k = min_f_index(&open);
        let ghost before = open@;
        let node = open.remove(k);
        if node.x == goal.x && node.y == goal.y {
            proof {
                assert(entry_ok(map, gl, gmap@, before[k as int]));
                map.lemma_index(st.0, st.1);
            }
            let path = reconstruct(map, start, goal, &gmap, &came);
            proof {
                lemma_tile_path_reachable(map, st, gl, path@);
                lemma_result_optimal(map, st, gl, before, gmap@, came@, k as int, path@);
            }
            return Some(path);
        }
        proof {
            lemma_pop(map, st, gl, before, gmap@, came@, k as int);
        }
        let qi = map.index(node.x, node.y).unwrap();
        if node.g > gmap[qi] {
            assert(measure(open@, gmap@) < m0);
            proof {
                lemma_gsum_nonneg(gmap@);
            }
            continue;
        }
        expand(map, start, goal, &mut open, &mut gmap, &mut came, node.x, node.y, node.g);
        assert(measure(open@, gmap@) < m0);
        proof {
            lemma_gsum_nonneg(gmap@);
        }
    }
}


pub open spec fn abs_int(v: int) -> int {
    if v < 0 {
        -v
    } else {
        v
    }
}

/// Tile (x, y) lies on the square ring of tiles at distance `r` (in the larger
/// of the two axes) around (cx, cy).
pub open spec fn on_ring(cx: int, cy: int, r: int, x: int, y: int) -> bool {
    (abs_int(x - cx) == r && abs_int(y - cy) <= r) || (abs_int(y - cy) == r && abs_int(x - cx) <= r)
}

/// Tile `a` comes before tile `b` row by row, left to right in a row.
pub open spec fn scan_before(a: (int, int), b: (int, int)) -> bool {
    a.1 < b.1 || (a.1 == b.1 && a.0 < b.0)
}

/// The floor tiles of the ring at distance `radius` around (cx, cy), row by
/// row and left to right in a row: the candidates among which a click on a
/// wall looks for the closest floor.
pub fn walkable_ring(map: &TileMap, cx: i32, cy: i32, radius: i32) -> (r: Vec<TileCoord>)
    requires
        map.wf(),
        0 <= radius < i32::MAX,
        i32::MIN <= cx - radius,
        cx + radius <= i32::MAX,
        i32::MIN <= cy - radius,
        cy + radius <= i32::MAX,
    ensures
        forall|i: int|
            0 <= i < r@.len() ==> map.walkable((#[trigger] r@[i]).x as int, r@[i].y as int) && on_ring(
                cx as int,
                cy as int,
                radius as int,
                r@[i].x as int,
                r@[i].y as int,
            ),
        forall|x: int, y: int|
            map.walkable(x, y) && on_ring(cx as int, cy as int, radius as int, x, y) ==> exists|i: int|
                0 <= i < r@.len() && #[trigger] r@[i] == (TileCoord { x: x as i32, y: y as i32 }),
        forall|i: int, j: int| 0 <= i < j < r@.len() ==> scan_before(tc(#[trigger] r@[i]), tc(#[trigger] r@[j])),
{
    let mut out: Vec<TileCoord> = Vec::new();
    let mut dy: i32 = -radius;
    while dy <= radius
        invariant
            map.wf(),
            0 <= radius < i32::MAX,
            i32::MIN <= cx - radius,
            cx + radius <= i32::MAX,
            i32::MIN <= cy - radius,
            cy + radius <= i32::MAX,
            -radius <= dy <= radius + 1,
            forall|i: int|
                0 <= i < out@.len() ==> map.walkable((#[trigger] out@[i]).x as int, out@[i].y as int) && on_ring(
                    cx as int,
                    cy as int,
                    radius as int,
                    out@[i].x as int,
                    out@[i].y as int,
                ) && out@[i].y < cy + dy,
            forall|x: int, y: int|
                map.walkable(x, y) && on_ring(cx as int, cy as int, radius as int, x, y) && y < cy + dy
                    ==> exists|i: int|
                    0 <= i < out@.len() && #[trigger] out@[i] == (TileCoord { x: x as i32, y: y as i32 }),
            forall|i: int, j: int|
                0 <= i < j < out@.len() ==> scan_before(tc(#[trigger] out@[i]), tc(#[trigger] out@[j])),
        decreases radius + 1 - dy,
    {
        let mut dx: i32 = -radius;
        while dx <= radius
            invariant
                map.wf(),
                0 <= radius < i32::MAX,
                i32::MIN <= cx - radius,
                cx + radius <= i32::MAX,
                i32::MIN <= cy - radius,
                cy + radius <= i32::MAX,
                -radius <= dy <= radius,
                -radius <= dx <= radius + 1,
                forall|i: int|
                    0 <= i < out@.len() ==> map.walkable((#[trigger] out@[i]).x as int, out@[i].y as int)
                        && on_ring(cx as int, cy as int, radius as int, out@[i].x as int, out@[i].y as int)
                        && scan_before(tc(out@[i]), (cx + dx, cy + dy)),
                forall|x: int, y: int|
                    map.walkable(x, y) && on_ring(cx as int, cy as int, radius as int, x, y) && scan_before(
                        (x, y),
                        (cx + dx, cy + dy),
                    ) ==> exists|i: int|
                        0 <= i < out@.len() && #[trigger] out@[i] == (TileCoord { x: x as i32, y: y as i32 }),
                forall|i: int, j: int|
                    0 <= i < j < out@.len() ==> scan_before(tc(#[trigger] out@[i]), tc(#[trigger] out@[j])),
            decreases radius + 1 - dx,
        {
            let on = dx == radius || dx == -radius || dy == radius || dy == -radius;
            if on {
                let nx = cx + dx;
                let ny = cy + dy;
                if map.is_walkable(nx, ny) {
                    let ghost before = out@;
                    out.push(TileCoord { x: nx, y: ny });
                    proof {
                        assert forall|x: int, y: int|
                            map.walkable(x, y) && on_ring(cx as int, cy as int, radius as int, x, y)
                                && scan_before((x, y), (cx + dx + 1, cy + dy)) implies exists|i: int|
                            0 <= i < out@.len() && #[trigger] out@[i] == (TileCoord { x: x as i32, y: y as i32 }) by {
                            if x == nx && y == ny {
                                assert(out@[before.len() as int] == (TileCoord { x: x as i32, y: y as i32 }));
                            } else {
                                let i = choose|i: int|
                                    0 <= i < before.len() && #[trigger] before[i] == (TileCoord {
                                        x: x as i32,
                                        y: y as i32,
                                    });
                                assert(out@[i] == before[i]);
                            }
                        }
                        assert forall|i: int|
                            0 <= i < out@.len() implies map.walkable(
                            (#[trigger] out@[i]).x as int,
                            out@[i].y as int,
                        ) && on_ring(cx as int, cy as int, radius as int, out@[i].x as int, out@[i].y as int)
                            && scan_before(tc(out@[i]), (cx + dx + 1, cy + dy)) by {
                            if i < before.len() {
                                assert(out@[i] == before[i]);
                            }
                        }
                        assert forall|i: int, j: int|
                            0 <= i < j < out@.len() implies scan_before(
                            tc(#[trigger] out@[i]),
                            tc(#[trigger] out@[j]),
                        ) by {
                            assert(out@[i] == before[i]);
                            if j < before.len() {
                                assert(out@[j] == before[j]);
                            }
                        }
                    }
                } else {
                    proof {
                        assert forall|x: int, y: int|
                            map.walkable(x, y) && on_ring(cx as int, cy as int, radius as int, x, y)
                                && scan_before((x, y), (cx + dx + 1, cy + dy)) implies exists|i: int|
                            0 <= i < out@.len() && #[trigger] out@[i] == (TileCoord { x: x as i32, y: y as i32 }) by {
                            assert(scan_before((x, y), (cx + dx, cy + dy)));
                        }
                    }
                }
            } else {
                proof {
                    assert forall|x: int, y: int|
                        map.walkable(x, y) && on_ring(cx as int, cy as int, radius as int, x, y) && scan_before(
                            (x, y),
                            (cx + dx + 1, cy + dy),
                        ) implies exists|i: int|
                        0 <= i < out@.len() && #[trigger] out@[i] == (TileCoord { x: x as i32, y: y as i32 }) by {
                        assert(scan_before((x, y), (cx + dx, cy + dy)));
                    }
                }
            }
            dx = dx + 1;
        }
        proof {
            assert forall|x: int, y: int|
                map.walkable(x, y) && on_ring(cx as int, cy as int, radius as int, x, y) && y < cy + dy + 1
                    implies exists|i: int|
                0 <= i < out@.len() && #[trigger] out@[i] == (TileCoord { x: x as i32, y: y as i32 }) by {
                assert(scan_before((x, y), (cx + dx, cy + dy)));
            }
        }
        dy = dy + 1;
    }
    out
}

} // verus!
