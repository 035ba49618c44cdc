//! Grid geometry: the tile lattice, 8-directional adjacency and squared
//! Euclidean distance, all in exact integer arithmetic.

use vstd::prelude::*;

verus! {

/// Edge length of one grid tile, in world units. Every tile-aligned position
/// has both coordinates equal to a multiple of this constant.
pub const T_SIZE: i64 = 48;

/// Largest coordinate magnitude accepted by [`get_sqr_dist`]: squared
/// differences of coordinates up to this size still fit in an `i64`.
pub const MAX_DIST_COORD: i64 = 1_000_000_000;

/// Largest coordinate magnitude accepted by the planners. The bound leaves
/// room for a bounded search to drift away from its start without any
/// intermediate distance computation overflowing an `i64`.
pub const MAX_PLAN_COORD: i64 = 500_000;

/// A position in world units. All positions handled by the planners are
/// tile-aligned: integer multiples of [`T_SIZE`] on both axes.
#[derive(Clone, Copy, PartialEq, Eq, Structural, Debug, Hash)]
pub struct Pos {
    pub x: i64,
    pub y: i64,
}

/// The x component of the `i`-th adjacency offset, in the fixed order
/// N, NE, E, SE, S, SW, W, NW.
pub open spec fn off_x(i: int) -> int {
    if i == 0 {
        0
    } else if i == 1 {
        T_SIZE as int
    } else if i == 2 {
        T_SIZE as int
    } else if i == 3 {
        T_SIZE as int
    } else if i == 4 {
        0
    } else if i == 5 {
        -(T_SIZE as int)
    } else if i == 6 {
        -(T_SIZE as int)
    } else {
        -(T_SIZE as int)
    }
}

/// The y component of the `i`-th adjacency offset, in the fixed order
/// N, NE, E, SE, S, SW, W, NW.
pub open spec fn off_y(i: int) -> int {
    if i == 0 {
        -(T_SIZE as int)
    } else if i == 1 {
        -(T_SIZE as int)
    } else if i == 2 {
        0
    } else if i == 3 {
        T_SIZE as int
    } else if i == 4 {
        T_SIZE as int
    } else if i == 5 {
        T_SIZE as int
    } else if i == 6 {
        0
    } else {
        -(T_SIZE as int)
    }
}

/// `b` is exactly one step from `a` along the `i`-th adjacency offset.
pub open spec fn is_step(a: Pos, b: Pos, i: int) -> bool {
    b.x == a.x + off_x(i) && b.y == a.y + off_y(i)
}

/// `b` is one of the 8 tiles adjacent to `a`.
pub open spec fn is_adjacent(a: Pos, b: Pos) -> bool {
    exists|i: int| 0 <= i < 8 && is_step(a, b, i)
}

/// Squared Euclidean distance between two positions.
pub open spec fn sqr_dist(a: Pos, b: Pos) -> int {
    (a.x - b.x) * (a.x - b.x) + (a.y - b.y) * (a.y - b.y)
}

/// Both coordinates are small enough for squared distances in `i64`.
pub open spec fn dist_coords_ok(p: Pos) -> bool {
    -MAX_DIST_COORD <= p.x <= MAX_DIST_COORD && -MAX_DIST_COORD <= p.y <= MAX_DIST_COORD
}

/// Both coordinates are within the planners' accepted range.
pub open spec fn plan_coords_ok(p: Pos) -> bool {
    -MAX_PLAN_COORD <= p.x <= MAX_PLAN_COORD && -MAX_PLAN_COORD <= p.y <= MAX_PLAN_COORD
}

/// Adjacency is symmetric: each offset has its opposite among the 8.
pub proof fn lemma_adjacent_symm(a: Pos, b: Pos)
    requires
        is_adjacent(a, b),
    ensures
        is_adjacent(b, a),
{
    let i = choose|i: int| 0 <= i < 8 && is_step(a, b, i);
    let j: int = if i < 4 {
        i + 4
    } else {
        i - 4
    };
    assert(is_step(b, a, j));
}

/// No tile is adjacent to itself: every offset moves on at least one axis.
pub proof fn lemma_adjacent_ne(a: Pos, b: Pos)
    requires
        is_adjacent(a, b),
    ensures
        a != b,
{
    let i = choose|i: int| 0 <= i < 8 && is_step(a, b, i);
    assert(off_x(i) != 0 || off_y(i) != 0);
}

/// One adjacent step moves each coordinate by a multiple of the tile size.
pub proof fn lemma_step_aligned(a: Pos, b: Pos)
    requires
        is_adjacent(a, b),
    ensures
        (b.x - a.x) % (T_SIZE as int) == 0,
        (b.y - a.y) % (T_SIZE as int) == 0,
{
    let i = choose|i: int| 0 <= i < 8 && is_step(a, b, i);
    assert(b.x - a.x == off_x(i) && b.y - a.y == off_y(i));
}

proof fn lemma_aligned_upto(start: Pos, path: Seq<Pos>, i: int)
    requires
        path.len() > 0 ==> is_adjacent(start, path[0]),
        forall|m: int| 0 <= m < path.len() - 1 ==> #[trigger] is_adjacent(path[m], path[m + 1]),
        0 <= i < path.len(),
    ensures
        (path[i].x - start.x) % (T_SIZE as int) == 0,
        (path[i].y - start.y) % (T_SIZE as int) == 0,
    decreases i,
{
    if i == 0 {
        lemma_step_aligned(start, path[0]);
    } else {
        lemma_aligned_upto(start, path, i - 1);
        let m: int = i - 1;
        assert(is_adjacent(path[m], path[m + 1]));
        lemma_step_aligned(path[i - 1], path[i]);
        let d1x: int = path[i - 1].x - start.x;
        let d2x: int = path[i].x - path[i - 1].x;
        let d1y: int = path[i - 1].y - start.y;
        let d2y: int = path[i].y - path[i - 1].y;
        assert((d1x + d2x) % 48 == 0) by (nonlinear_arith)
            requires
                d1x % 48 == 0,
                d2x % 48 == 0,
        ;
        assert((d1y + d2y) % 48 == 0) by (nonlinear_arith)
            requires
                d1y % 48 == 0,
                d2y % 48 == 0,
        ;
    }
}

/// A path whose first entry is adjacent to `start` and whose consecutive
/// entries are adjacent stays on `start`'s tile lattice: every entry is a
/// whole number of tiles away from `start` on both axes. Together with the
/// path planner's contract, every planned route over a tile-aligned start
/// is made of tile-aligned positions.
pub proof fn lemma_path_tile_aligned(start: Pos, path: Seq<Pos>)
    requires
        path.len() > 0 ==> is_adjacent(start, path[0]),
        forall|m: int| 0 <= m < path.len() - 1 ==> #[trigger] is_adjacent(path[m], path[m + 1]),
    ensures
        forall|i: int|
            0 <= i < path.len() ==> ((#[trigger] path[i]).x - start.x) % (T_SIZE as int) == 0 && (
            path[i].y - start.y) % (T_SIZE as int) == 0,
{
    assert forall|i: int|
        0 <= i < path.len() implies ((#[trigger] path[i]).x - start.x) % (T_SIZE as int) == 0 && (
    path[i].y - start.y) % (T_SIZE as int) == 0 by {
        lemma_aligned_upto(start, path, i);
    }
}

/// The 8 adjacency offsets as positions, in the fixed order
/// N, NE, E, SE, S, SW, W, NW.
pub fn adj_8_t() -> (r: Vec<Pos>)
    ensures
        r@.len() == 8,
        forall|i: int| 0 <= i < 8 ==> r@[i].x == off_x(i) && r@[i].y == off_y(i),
{
    let mut v: Vec<Pos> = Vec::new();
    v.push(Pos { x: 0, y: -T_SIZE });
    v.push(Pos { x: T_SIZE, y: -T_SIZE });
    v.push(Pos { x: T_SIZE, y: 0 });
    v.push(Pos { x: T_SIZE, y: T_SIZE });
    v.push(Pos { x: 0, y: T_SIZE });
    v.push(Pos { x: -T_SIZE, y: T_SIZE });
    v.push(Pos { x: -T_SIZE, y: 0 });
    v.push(Pos { x: -T_SIZE, y: -T_SIZE });
    v
}

/// The 8 tile-index neighbours of `(x, y)`, in the same fixed order as
/// [`adj_8_t`].
pub fn get_adj(x: i32, y: i32) -> (r: Vec<(i32, i32)>)
    requires
        i32::MIN < x < i32::MAX,
        i32::MIN < y < i32::MAX,
    ensures
        r@.len() == 8,
        r@[0].0 == x && r@[0].1 == y - 1,
        r@[1].0 == x + 1 && r@[1].1 == y - 1,
        r@[2].0 == x + 1 && r@[2].1 == y,
        r@[3].0 == x + 1 && r@[3].1 == y + 1,
        r@[4].0 == x && r@[4].1 == y + 1,
        r@[5].0 == x - 1 && r@[5].1 == y + 1,
        r@[6].0 == x - 1 && r@[6].1 == y,
        r@[7].0 == x - 1 && r@[7].1 == y - 1,
{
    let mut v: Vec<(i32, i32)> = Vec::new();
    v.push((x, y - 1));
    v.push((x + 1, y - 1));
    v.push((x + 1, y));
    v.push((x + 1, y + 1));
    v.push((x, y + 1));
    v.push((x - 1, y + 1));
    v.push((x - 1, y));
    v.push((x - 1, y - 1));
    v
}

/// Squared Euclidean distance between two positions, exactly.
pub fn get_sqr_dist(first: Pos, second: Pos) -> (r: i64)
    requires
        dist_coords_ok(first),
        dist_coords_ok(second),
    ensures
        r == sqr_dist(first, second),
        r >= 0,
{
    let dx: i64 = first.x - second.x;
    let dy: i64 = first.y - second.y;
    assert(dx * dx + dy * dy <= 8_000_000_000_000_000_000 && dx * dx >= 0 && dy * dy >= 0)
        by (nonlinear_arith)
        requires
            -2_000_000_000 <= dx <= 2_000_000_000,
            -2_000_000_000 <= dy <= 2_000_000_000,
    ;
    dx * dx + dy * dy
}

} // verus!
