//! Walks over the floor of a tile map: side-by-side steps (used to check that
//! the rooms of a dungeon are connected) and the eight-way moves of the path
//! search, where a diagonal move may not cut a wall corner.

use vstd::prelude::*;

use crate::dungeon::TileMap;

verus! {

/// Tiles `a` and `b` share a side.
pub open spec fn side_step(a: (int, int), b: (int, int)) -> bool {
    ||| a.0 == b.0 && (a.1 == b.1 + 1 || a.1 + 1 == b.1)
    ||| a.1 == b.1 && (a.0 == b.0 + 1 || a.0 + 1 == b.0)
}

/// `path` starts on any tile and then moves side by side onto floor tiles only.
pub open spec fn is_side_walk(map: &TileMap, path: Seq<(int, int)>) -> bool {
    &&& path.len() >= 1
    &&& forall|i: int|
        #![trigger path[i]]
        1 <= i < path.len() ==> side_step(path[i - 1], path[i]) && map.walkable(path[i].0, path[i].1)
}

/// Some side-by-side walk over floor leads from `from` to `to`.
pub open spec fn side_reachable(map: &TileMap, from: (int, int), to: (int, int)) -> bool {
    exists|path: Seq<(int, int)>|
        #[trigger] is_side_walk(map, path) && path[0] == from && path.last() == to
}

/// Every tile of `s` has each floor tile beside it in `s` as well.
pub open spec fn side_closed(map: &TileMap, s: spec_fn(int, int) -> bool) -> bool {
    forall|x: int, y: int|
        #[trigger] s(x, y) ==> {
            &&& map.walkable(x + 1, y) ==> s(x + 1, y)
            &&& map.walkable(x - 1, y) ==> s(x - 1, y)
            &&& map.walkable(x, y + 1) ==> s(x, y + 1)
            &&& map.walkable(x, y - 1) ==> s(x, y - 1)
        }
}

pub proof fn lemma_side_reachable_refl(map: &TileMap, a: (int, int))
    ensures
        side_reachable(map, a, a),
{
    let p = seq![a];
    assert(is_side_walk(map, p));
}

pub proof fn lemma_side_reachable_step(map: &TileMap, a: (int, int), b: (int, int), c: (int, int))
    requires
        side_reachable(map, a, b),
        side_step(b, c),
        map.walkable(c.0, c.1),
    ensures
        side_reachable(map, a, c),
{
    let p = choose|p: Seq<(int, int)>| #[trigger] is_side_walk(map, p) && p[0] == a && p.last() == b;
    let q = p.push(c);
    assert forall|i: int| #![trigger q[i]] 1 <= i < q.len() implies side_step(q[i - 1], q[i])
        && map.walkable(q[i].0, q[i].1) by {
        if i < p.len() {
            assert(q[i] == p[i]);
            assert(q[i - 1] == p[i - 1]);
        } else {
            assert(q[i - 1] == b);
        }
    }
    assert(is_side_walk(map, q));
    assert(q[0] == a);
}

proof fn lemma_side_reachable_trans_prefix(
    map: &TileMap,
    a: (int, int),
    q: Seq<(int, int)>,
    k: int,
)
    requires
        side_reachable(map, a, q[0]),
        is_side_walk(map, q),
        0 <= k < q.len(),
    ensures
        side_reachable(map, a, q[k]),
    decreases k,
{
    if k > 0 {
        lemma_side_reachable_trans_prefix(map, a, q, k - 1);
        assert(side_step(q[k - 1], q[k]) && map.walkable(q[k].0, q[k].1));
        lemma_side_reachable_step(map, a, q[k - 1], q[k]);
    }
}

/// Side walks join end to end.
pub proof fn lemma_side_reachable_trans(map: &TileMap, a: (int, int), b: (int, int), c: (int, int))
    requires
        side_reachable(map, a, b),
        side_reachable(map, b, c),
    ensures
        side_reachable(map, a, c),
{
    let q = choose|q: Seq<(int, int)>| #[trigger] is_side_walk(map, q) && q[0] == b && q.last() == c;
    lemma_side_reachable_trans_prefix(map, a, q, q.len() - 1);
}

/// Along a row whose tiles from column `x0` to column `x1` are all floor, a side
/// walk leads from the one end to the other.
pub proof fn lemma_row_reachable(map: &TileMap, y: int, x0: int, x1: int)
    requires
        forall|x: int| (x0 <= x <= x1 || x1 <= x <= x0) ==> #[trigger] map.walkable(x, y),
    ensures
        side_reachable(map, (x0, y), (x1, y)),
    decreases if x0 <= x1 {
        x1 - x0
    } else {
        x0 - x1
    },
{
    if x0 == x1 {
        lemma_side_reachable_refl(map, (x0, y));
    } else {
        let prev = if x0 < x1 {
            x1 - 1
        } else {
            x1 + 1
        };
        lemma_row_reachable(map, y, x0, prev);
        assert(map.walkable(x1, y));
        lemma_side_reachable_step(map, (x0, y), (prev, y), (x1, y));
    }
}

/// Along a column whose tiles from row `y0` to row `y1` are all floor, a side
/// walk leads from the one end to the other.
pub proof fn lemma_column_reachable(map: &TileMap, x: int, y0: int, y1: int)
    requires
        forall|y: int| (y0 <= y <= y1 || y1 <= y <= y0) ==> #[trigger] map.walkable(x, y),
    ensures
        side_reachable(map, (x, y0), (x, y1)),
    decreases if y0 <= y1 {
        y1 - y0
    } else {
        y0 - y1
    },
{
    if y0 == y1 {
        lemma_side_reachable_refl(map, (x, y0));
    } else {
        let prev = if y0 < y1 {
            y1 - 1
        } else {
            y1 + 1
        };
        lemma_column_reachable(map, x, y0, prev);
        assert(map.walkable(x, y1));
        lemma_side_reachable_step(map, (x, y0), (x, prev), (x, y1));
    }
}

proof fn lemma_closed_holds_walk_prefix(
    map: &TileMap,
    s: spec_fn(int, int) -> bool,
    p: Seq<(int, int)>,
    k: int,
)
    requires
        is_side_walk(map, p),
        s(p[0].0, p[0].1),
        side_closed(map, s),
        0 <= k < p.len(),
    ensures
        s(p[k].0, p[k].1),
    decreases k,
{
    if k > 0 {
        lemma_closed_holds_walk_prefix(map, s, p, k - 1);
        let a = p[k - 1];
        let b = p[k];
        assert(side_step(a, b) && map.walkable(b.0, b.1));
        assert(s(a.0, a.1));
    }
}

/// A set that holds `from` and is closed under side steps onto floor holds every
/// tile that a side walk reaches from `from`.
pub proof fn lemma_closed_holds_reachable(
    map: &TileMap,
    s: spec_fn(int, int) -> bool,
    from: (int, int),
    to: (int, int),
)
    requires
        s(from.0, from.1),
        side_closed(map, s),
        side_reachable(map, from, to),
    ensures
        s(to.0, to.1),
{
    let p = choose|p: Seq<(int, int)>| #[trigger] is_side_walk(map, p) && p[0] == from && p.last() == to;
    lemma_closed_holds_walk_prefix(map, s, p, p.len() - 1);
}


/// `b` is one of the eight tiles around `a`.
pub open spec fn king_step(a: (int, int), b: (int, int)) -> bool {
    &&& a != b
    &&& -1 <= b.0 - a.0 <= 1
    &&& -1 <= b.1 - a.1 <= 1
}

/// A move of the path search from `a` onto the floor tile `b` beside it; a
/// diagonal move also needs floor on both tiles it passes between, so that it
/// never cuts a wall corner.
pub open spec fn path_move(map: &TileMap, a: (int, int), b: (int, int)) -> bool {
    &&& king_step(a, b)
    &&& map.walkable(b.0, b.1)
    &&& (a.0 != b.0 && a.1 != b.1) ==> (map.walkable(b.0, a.1) && map.walkable(a.0, b.1))
}

/// `w` starts on any tile and goes on by moves of the path search.
pub open spec fn is_move_walk(map: &TileMap, w: Seq<(int, int)>) -> bool {
    &&& w.len() >= 1
    &&& forall|i: int| #![trigger w[i]] 1 <= i < w.len() ==> path_move(map, w[i - 1], w[i])
}

/// Some sequence of moves of the path search leads from `from` to `to`.
pub open spec fn move_reachable(map: &TileMap, from: (int, int), to: (int, int)) -> bool {
    exists|w: Seq<(int, int)>| #[trigger] is_move_walk(map, w) && w[0] == from && w.last() == to
}

/// No move of the path search leads out of `s`.
pub open spec fn move_closed(map: &TileMap, s: spec_fn(int, int) -> bool) -> bool {
    forall|x: int, y: int, a: int, b: int|
        #![trigger s(x, y), s(a, b)]
        s(x, y) && path_move(map, (x, y), (a, b)) ==> s(a, b)
}

proof fn lemma_move_closed_prefix(map: &TileMap, s: spec_fn(int, int) -> bool, w: Seq<(int, int)>, k: int)
    requires
        is_move_walk(map, w),
        s(w[0].0, w[0].1),
        move_closed(map, s),
        0 <= k < w.len(),
    ensures
        s(w[k].0, w[k].1),
    decreases k,
{
    if k > 0 {
        lemma_move_closed_prefix(map, s, w, k - 1);
        let a = w[k - 1];
        let b = w[k];
        assert(path_move(map, a, b));
        assert(s(a.0, a.1));
        assert(s(a.0, a.1) && path_move(map, (a.0, a.1), (b.0, b.1)) ==> s(b.0, b.1));
    }
}

/// A set that holds `from` and that no move leaves holds every tile the path
/// search could reach from `from`.
pub proof fn lemma_move_closed_holds_reachable(
    map: &TileMap,
    s: spec_fn(int, int) -> bool,
    from: (int, int),
    to: (int, int),
)
    requires
        s(from.0, from.1),
        move_closed(map, s),
        move_reachable(map, from, to),
    ensures
        s(to.0, to.1),
{
    let w = choose|w: Seq<(int, int)>| #[trigger] is_move_walk(map, w) && w[0] == from && w.last() == to;
    lemma_move_closed_prefix(map, s, w, w.len() - 1);
}

} // verus!
