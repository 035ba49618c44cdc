//! Path planning: a bounded A* search over the tile grid and a greedy
//! single-step fallback, both reading a chunk's obstacle set.

use vstd::prelude::*;

use crate::grid::{
    adj_8_t, dist_coords_ok, get_sqr_dist, is_adjacent, is_step, lemma_adjacent_ne,
    lemma_adjacent_symm, off_x, off_y, plan_coords_ok, sqr_dist, Pos,
};
use crate::obstacles::Chunk;

verus! {

/// The tile one step from `p` along the `i`-th adjacency offset is blocked.
pub open spec fn neighbor_blocked(c: Chunk, p: Pos, i: int) -> bool {
    c.blocks_at(p.x + off_x(i), p.y + off_y(i))
}

/// All 8 tiles adjacent to `p` are blocked.
pub open spec fn all_neighbors_blocked(c: Chunk, p: Pos) -> bool {
    forall|i: int| 0 <= i < 8 ==> neighbor_blocked(c, p, i)
}

/// Squared Euclidean distance from the `i`-th neighbour of `p` to `t`.
pub open spec fn step_sqr_dist(p: Pos, t: Pos, i: int) -> int {
    (p.x + off_x(i) - t.x) * (p.x + off_x(i) - t.x) + (p.y + off_y(i) - t.y) * (p.y + off_y(i)
        - t.y)
}

/// The `i`-th neighbour of `start` is unblocked and closest to `target`
/// among the unblocked neighbours; on a distance tie, no earlier offset
/// does as well, so the first minimum in offset order wins.
pub open spec fn is_best_step(c: Chunk, start: Pos, target: Pos, i: int) -> bool {
    &&& 0 <= i < 8
    &&& !neighbor_blocked(c, start, i)
    &&& forall|j: int|
        0 <= j < i && !neighbor_blocked(c, start, j) ==> step_sqr_dist(start, target, j)
            > step_sqr_dist(start, target, i)
    &&& forall|j: int|
        i <= j < 8 && !neighbor_blocked(c, start, j) ==> step_sqr_dist(start, target, j)
            >= step_sqr_dist(start, target, i)
}

/// One visited-or-frontier tile of a single A* planning call. Nodes live
/// in an arena owned by that call; `parent` is the arena index of the node
/// this one was reached from, or nothing for the start node.
#[derive(Clone, Copy, Debug)]
pub struct Node {
    pub pos: Pos,
    pub parent: Option<usize>,
    /// Accumulated step count from the start; every step costs 1.
    pub dist_from_start: i64,
    /// Heuristic: squared Euclidean distance to the goal tile.
    pub dist_from_target: i64,
    /// Priority used to select the next node: `dist_from_start + dist_from_target`.
    pub cost: i64,
}

impl Node {
    /// A fresh node one step past its parent (`parent_dist_from_start` is
    /// the parent's step count), or a root node when `parent` is nothing.
    /// Heuristic and cost start at zero and are filled in by the search.
    pub fn new(pos: Pos, parent: Option<usize>, parent_dist_from_start: i64) -> (r: Node)
        requires
            0 <= parent_dist_from_start < i64::MAX,
        ensures
            r.pos == pos,
            r.parent == parent,
            r.dist_from_start == if parent is Some {
                parent_dist_from_start + 1
            } else {
                0
            },
            r.dist_from_target == 0,
            r.cost == 0,
    {
        Node {
            pos,
            parent,
            dist_from_start: if parent.is_some() {
                parent_dist_from_start + 1
            } else {
                0
            },
            dist_from_target: 0,
            cost: 0,
        }
    }
}

/// The parent links of a search arena form a forest rooted at entry 0:
/// entry 0 is the root and every later entry points back to a strictly
/// earlier one, so no node is its own ancestor.
pub open spec fn parents_ok(arena: Seq<Node>) -> bool {
    &&& arena.len() >= 1
    &&& arena[0].parent is None
    &&& forall|k: int|
        1 <= k < arena.len() ==> ((#[trigger] arena[k].parent) matches Some(j) && 0 <= j < k)
}

/// Entry `k` of the arena extends its parent by one adjacent step onto an
/// unblocked tile, counts its steps from the start, and after `k` entries
/// has drifted at most `48 * k` world units from the start on each axis.
pub open spec fn wf_entry(arena: Seq<Node>, k: int, chunk: Chunk, start: Pos) -> bool {
    arena[k].parent matches Some(j) && {
        &&& 0 <= j < k
        &&& is_adjacent(arena[j as int].pos, arena[k].pos)
        &&& !chunk.blocks(arena[k].pos)
        &&& arena[k].dist_from_start == arena[j as int].dist_from_start + 1
        &&& 1 <= arena[k].dist_from_start <= k
        &&& -(48 * k) <= arena[k].pos.x - start.x <= 48 * k
        &&& -(48 * k) <= arena[k].pos.y - start.y <= 48 * k
    }
}

/// A well-formed search arena: the root is the start node, trusted
/// unconditionally, and every later entry satisfies [`wf_entry`].
pub open spec fn wf_arena(arena: Seq<Node>, chunk: Chunk, start: Pos) -> bool {
    &&& arena.len() >= 1
    &&& arena[0].pos == start
    &&& arena[0].parent is None
    &&& arena[0].dist_from_start == 0
    &&& forall|k: int| 1 <= k < arena.len() ==> wf_entry(arena, k, chunk, start)
}

/// The positions along the parent chain of arena entry `k`, root first,
/// entry `k`'s own position last.
pub open spec fn chain(arena: Seq<Node>, k: int) -> Seq<Pos>
    decreases k,
{
    if 0 <= k < arena.len() {
        match arena[k].parent {
            None => seq![arena[k].pos],
            Some(j) => if 0 <= j < k {
                chain(arena, j as int).push(arena[k].pos)
            } else {
                seq![arena[k].pos]
            },
        }
    } else {
        Seq::empty()
    }
}

/// In a well-formed arena, the parent chain of any entry starts at the
/// start position, moves by single adjacent steps, and touches no blocked
/// tile after the start.
proof fn lemma_chain(arena: Seq<Node>, k: int, chunk: Chunk, start: Pos)
    requires
        wf_arena(arena, chunk, start),
        0 <= k < arena.len(),
    ensures
        chain(arena, k).len() >= 1,
        chain(arena, k)[0] == start,
        chain(arena, k).last() == arena[k].pos,
        k >= 1 ==> chain(arena, k).len() >= 2,
        forall|i: int|
            0 <= i < chain(arena, k).len() - 1 ==> #[trigger] is_adjacent(
                chain(arena, k)[i],
                chain(arena, k)[i + 1],
            ),
        forall|i: int|
            1 <= i < chain(arena, k).len() ==> !chunk.blocks(#[trigger] chain(arena, k)[i]),
    decreases k,
{
    if k == 0 {
        assert(chain(arena, 0) == seq![arena[0].pos]);
    } else {
        assert(wf_entry(arena, k, chunk, start));
        let j = arena[k].parent->0;
        lemma_chain(arena, j as int, chunk, start);
        let c = chain(arena, j as int);
        assert(chain(arena, k) == c.push(arena[k].pos));
        assert forall|i: int|
            0 <= i < chain(arena, k).len() - 1 implies #[trigger] is_adjacent(
            chain(arena, k)[i],
            chain(arena, k)[i + 1],
        ) by {
            if i < c.len() - 1 {
                assert(chain(arena, k)[i] == c[i]);
                assert(chain(arena, k)[i + 1] == c[i + 1]);
            } else {
                assert(chain(arena, k)[i] == c.last());
                assert(c.last() == arena[j as int].pos);
                assert(chain(arena, k)[i + 1] == arena[k].pos);
            }
        }
    }
}

/// Pushing a node that extends an existing entry keeps the arena
/// well-formed.
proof fn lemma_wf_push(arena: Seq<Node>, node: Node, chunk: Chunk, start: Pos)
    requires
        wf_arena(arena, chunk, start),
        node.parent matches Some(j) && {
            &&& 0 <= j < arena.len()
            &&& is_adjacent(arena[j as int].pos, node.pos)
            &&& !chunk.blocks(node.pos)
            &&& node.dist_from_start == arena[j as int].dist_from_start + 1
            &&& 1 <= node.dist_from_start <= arena.len()
            &&& -(48 * arena.len()) <= node.pos.x - start.x <= 48 * arena.len()
            &&& -(48 * arena.len()) <= node.pos.y - start.y <= 48 * arena.len()
        },
    ensures
        wf_arena(arena.push(node), chunk, start),
{
    let arena2 = arena.push(node);
    assert forall|k: int| 1 <= k < arena2.len() implies wf_entry(arena2, k, chunk, start) by {
        if k < arena.len() {
            assert(wf_entry(arena, k, chunk, start));
            assert(arena2[k] == arena[k]);
            let j = arena[k].parent->0;
            assert(arena2[j as int] == arena[j as int]);
        } else {
            assert(arena2[k] == node);
            let j = node.parent->0;
            assert(arena2[j as int] == arena[j as int]);
        }
    }
}

/// Whether `v` holds the position `p`.
fn contains_pos(v: &Vec<Pos>, p: Pos) -> (r: bool)
    ensures
        r == v@.contains(p),
{
    let mut k: usize = 0;
    while k < v.len()
        invariant
            0 <= k <= v@.len(),
            forall|m: int| 0 <= m < k ==> v@[m] != p,
        decreases v@.len() - k,
    {
        if v[k] == p {
            assert(v@[k as int] == p);
            return true;
        }
        k = k + 1;
    }
    assert(!v@.contains(p));
    false
}

/// Reconstruct the path for arena entry `k`: the positions of its parent
/// chain in start-to-goal order, excluding the root itself.
fn build_path(arena: &Vec<Node>, k: usize) -> (r: Vec<Pos>)
    requires
        parents_ok(arena@),
        k < arena@.len(),
    ensures
        r@ == chain(arena@, k as int).subrange(1, chain(arena@, k as int).len() as int),
{
    let ghost ck = chain(arena@, k as int);
    let mut rev: Vec<Pos> = Vec::new();
    let mut i: usize = k;
    loop
        invariant_except_break
            parents_ok(arena@),
            i < arena@.len(),
            ck == chain(arena@, k as int),
            chain(arena@, i as int).len() + rev@.len() == ck.len(),
            chain(arena@, i as int).len() >= 1,
            forall|m: int|
                0 <= m < chain(arena@, i as int).len() ==> chain(arena@, i as int)[m] == ck[m],
            forall|m: int| 0 <= m < rev@.len() ==> rev@[m] == ck[ck.len() - 1 - m],
        ensures
            rev@.len() == ck.len(),
            ck.len() >= 1,
            forall|m: int| 0 <= m < rev@.len() ==> rev@[m] == ck[ck.len() - 1 - m],
        decreases i,
    {
        let ghost ci_chain = chain(arena@, i as int);
        proof {
            assert(ci_chain.last() == arena@[i as int].pos);
        }
        rev.push(arena[i].pos);
        match arena[i].parent {
            Some(j) => {
                proof {
                    assert(arena@[i as int].parent matches Some(jj) && 0 <= jj < i);
                    assert(chain(arena@, i as int) == chain(arena@, j as int).push(
                        arena@[i as int].pos,
                    ));
                }
                i = j;
            },
            None => {
                proof {
                    if i != 0 {
                        assert(arena@[i as int].parent is Some);
                    }
                    assert(i == 0);
                    assert(chain(arena@, 0) == seq![arena@[0].pos]);
                    assert(ci_chain.len() == 1);
                    assert(rev@.len() == ck.len());
                    assert(rev@[rev@.len() - 1] == arena@[0].pos);
                    assert(arena@[0].pos == ci_chain[0]);
                    assert(ci_chain[0] == ck[0]);
                }
                break ;
            },
        }
    }
    let n: usize = rev.len();
    let mut out: Vec<Pos> = Vec::new();
    let mut t: usize = n - 1;
    while t > 0
        invariant
            1 <= n == rev@.len() == ck.len(),
            t <= n - 1,
            out@.len() == n - 1 - t,
            forall|m: int| 0 <= m < rev@.len() ==> rev@[m] == ck[ck.len() - 1 - m],
            forall|m: int| 0 <= m < out@.len() ==> out@[m] == ck[m + 1],
        decreases t,
    {
        t = t - 1;
        out.push(rev[t]);
        proof {
            assert(rev@[t as int] == ck[ck.len() - 1 - t]);
            assert(ck.len() - 1 - t == out@.len());
        }
    }
    proof {
        assert(out@ =~= ck.subrange(1, ck.len() as int));
    }
    out
}

/// Arena entry `idx` is a goal node one step from the root: it sits on
/// `end`, was reached from the start node, and has cost 1.
spec fn is_goal_entry(arena: Seq<Node>, idx: int, end: Pos) -> bool {
    &&& 0 <= idx < arena.len()
    &&& arena[idx].pos == end
    &&& arena[idx].parent == Some(0usize)
    &&& arena[idx].dist_from_start == 1
    &&& arena[idx].cost == 1
}

/// The open set holds a goal node of cost 1, every open node costs at
/// least 1, and only goal nodes cost exactly 1 — so the next selection
/// must pick a goal node.
spec fn goal_in_open(arena: Seq<Node>, open: Seq<usize>, end: Pos) -> bool {
    &&& exists|g: int| 0 <= g < open.len() && is_goal_entry(arena, #[trigger] open[g] as int, end)
    &&& forall|m: int| 0 <= m < open.len() ==> arena[#[trigger] open[m] as int].cost >= 1
    &&& forall|m: int|
        0 <= m < open.len() && arena[#[trigger] open[m] as int].cost == 1 ==> is_goal_entry(
            arena,
            open[m] as int,
            end,
        )
}

/// A* path planner. Searches the tile grid from `start_pos` toward
/// `end_pos` against `chunk`'s obstacle set and returns the path in
/// start-to-goal order, excluding the start itself: consecutive entries
/// are one adjacency offset apart, no entry is blocked, and the last
/// entry is the goal. An empty result means no path was found — the goal
/// is unreachable, the bounded search gave up, or start and goal
/// coincide; callers must treat all three alike.
///
/// The search aborts once more nodes have been created than 10 times the
/// straight-line distance from start to goal, which bounds its cost in
/// pathological layouts at the price of missing long detours. One success
/// case is owed outright: a goal sitting on an unblocked tile adjacent to
/// the start is always reached, with the one-step path.
pub fn plan_path(chunk: &Chunk, start_pos: Pos, end_pos: Pos) -> (r: Vec<Pos>)
    requires
        plan_coords_ok(start_pos),
        plan_coords_ok(end_pos),
    ensures
        start_pos == end_pos ==> r@.len() == 0,
        r@.len() > 0 ==> r@[r@.len() - 1] == end_pos,
        r@.len() > 0 ==> is_adjacent(start_pos, r@[0]) && r@[0] != start_pos,
        forall|i: int| 0 <= i < r@.len() - 1 ==> #[trigger] is_adjacent(r@[i], r@[i + 1]),
        forall|i: int| 0 <= i < r@.len() ==> !chunk.blocks(#[trigger] r@[i]),
        start_pos != end_pos && !is_adjacent(start_pos, end_pos) && all_neighbors_blocked(
            *chunk,
            end_pos,
        ) ==> r@.len() == 0,
        start_pos != end_pos && is_adjacent(start_pos, end_pos) && !chunk.blocks(end_pos)
            ==> r@ == seq![end_pos],
        all_neighbors_blocked(*chunk, start_pos) ==> r@.len() == 0,
{
    let dist2: i64 = get_sqr_dist(start_pos, end_pos);
    proof {
        let dx: int = start_pos.x - end_pos.x;
        let dy: int = start_pos.y - end_pos.y;
        assert(0 <= dx * dx <= 1_000_000_000_000) by (nonlinear_arith)
            requires
                -1_000_000 <= dx <= 1_000_000,
        ;
        assert(0 <= dy * dy <= 1_000_000_000_000) by (nonlinear_arith)
            requires
                -1_000_000 <= dy <= 1_000_000,
        ;
    }
    let ghost adj_goal: bool = start_pos != end_pos && is_adjacent(start_pos, end_pos)
        && !chunk.blocks(end_pos);
    let ghost gj: int = if adj_goal {
        choose|j: int| 0 <= j < 8 && is_step(start_pos, end_pos, j)
    } else {
        0
    };
    let mut arena: Vec<Node> = Vec::new();
    arena.push(Node::new(start_pos, None, 0));
    let mut open: Vec<usize> = Vec::new();
    open.push(0);
    let mut visited: Vec<Pos> = Vec::new();

    while open.len() > 0
        invariant
            plan_coords_ok(start_pos),
            plan_coords_ok(end_pos),
            dist2 == sqr_dist(start_pos, end_pos),
            0 <= dist2 <= 2_000_000_000_000,
            wf_arena(arena@, *chunk, start_pos),
            arena@.len() <= 14_142_144,
            forall|i: int| 0 <= i < open@.len() ==> (#[trigger] open@[i]) < arena@.len(),
            adj_goal == (start_pos != end_pos && is_adjacent(start_pos, end_pos) && !chunk.blocks(
                end_pos,
            )),
            adj_goal ==> 0 <= gj < 8 && is_step(start_pos, end_pos, gj),
            adj_goal ==> (arena@.len() == 1 && open@.len() == 1 && open@[0] == 0
                && visited@.len() == 0) || (arena@.len() <= 9 && goal_in_open(
                arena@,
                open@,
                end_pos,
            )),
        decreases 14_142_144 - arena@.len(), open@.len(),
    {
        // Abort once the node count exceeds 10 times the straight-line
        // distance; compared squared on both sides to stay in integers.
        let len: usize = arena.len();
        let len64: i64 = len as i64;
        proof {
            assert(1 <= len64 * len64 <= 300_000_000_000_000) by (nonlinear_arith)
                requires
                    1 <= len64 <= 14_142_144,
            ;
        }
        if len64 * len64 > 100 * dist2 {
            proof {
                if adj_goal {
                    let dxg: int = start_pos.x - end_pos.x;
                    let dyg: int = start_pos.y - end_pos.y;
                    assert(dxg == -off_x(gj) && dyg == -off_y(gj));
                    assert(dxg * dxg + dyg * dyg >= 2304) by (nonlinear_arith)
                        requires
                            dxg == 0 || dxg == 48 || dxg == -48,
                            dyg == 0 || dyg == 48 || dyg == -48,
                            dxg != 0 || dyg != 0,
                    ;
                    assert(dist2 >= 2304);
                    if arena@.len() == 1 && open@.len() == 1 && open@[0] == 0 && visited@.len()
                        == 0 {
                        assert(len64 == 1);
                        assert(len64 * len64 == 1) by (nonlinear_arith)
                            requires
                                len64 == 1,
                        ;
                    } else {
                        assert(arena@.len() <= 9);
                        assert(len64 * len64 <= 81) by (nonlinear_arith)
                            requires
                                1 <= len64 <= 9,
                        ;
                    }
                    assert(false);
                }
            }
            return Vec::new();
        }
        proof {
            assert(len64 <= 14_142_135) by (nonlinear_arith)
                requires
                    1 <= len64,
                    len64 * len64 <= 200_000_000_000_000,
            ;
            assert(dist2 >= 1);
            if start_pos == end_pos {
                let dx0: int = start_pos.x - end_pos.x;
                let dy0: int = start_pos.y - end_pos.y;
                assert(dx0 * dx0 + dy0 * dy0 == 0) by (nonlinear_arith)
                    requires
                        dx0 == 0,
                        dy0 == 0,
                ;
                assert(false);
            }
        }
        // Select the open node with minimum cost; the linear scan keeps
        // the first minimum, so ties go to the earliest-created node.
        let mut best: usize = 0;
        let mut bi: usize = 1;
        while bi < open.len()
            invariant
                open@.len() >= 1,
                best < open@.len(),
                bi <= open@.len(),
                forall|i: int| 0 <= i < open@.len() ==> (#[trigger] open@[i]) < arena@.len(),
                forall|m: int|
                    0 <= m < bi ==> arena@[open@[best as int] as int].cost <= arena@[#[trigger] open@[m] as int].cost,
            decreases open@.len() - bi,
        {
            if arena[open[bi]].cost < arena[open[best]].cost {
                best = bi;
            }
            bi = bi + 1;
        }
        let ci: usize = open[best];
        let ghost open_pre = open@;
        let ghost visited_pre = visited@;
        open.remove(best);
        visited.push(arena[ci].pos);
        let cur_pos: Pos = arena[ci].pos;
        proof {
            if adj_goal {
                if open_pre.len() == 1 && open_pre[0] == 0 && arena@.len() == 1 && visited_pre.len()
                    == 0 {
                    assert(ci == 0);
                    assert(cur_pos == start_pos);
                } else {
                    assert(goal_in_open(arena@, open_pre, end_pos));
                    let g = choose|g: int|
                        0 <= g < open_pre.len() && is_goal_entry(
                            arena@,
                            #[trigger] open_pre[g] as int,
                            end_pos,
                        );
                    assert(arena@[ci as int].cost <= arena@[open_pre[g] as int].cost);
                    assert(arena@[ci as int].cost >= 1);
                    assert(is_goal_entry(arena@, ci as int, end_pos));
                    assert(cur_pos == end_pos);
                }
            }
        }

        if cur_pos == end_pos {
            proof {
                assert forall|k2: int| 1 <= k2 < arena@.len() implies ((#[trigger] arena@[k2].parent)
                    matches Some(j) && 0 <= j < k2) by {
                    assert(wf_entry(arena@, k2, *chunk, start_pos));
                }
            }
            let path = build_path(&arena, ci);
            proof {
                let ck = chain(arena@, ci as int);
                lemma_chain(arena@, ci as int, *chunk, start_pos);
                assert(ci != 0);
                assert(path@.len() == ck.len() - 1);
                assert(path@[path@.len() - 1] == ck[ck.len() - 1]);
                assert(path@[0] == ck[1]);
                assert(is_adjacent(ck[0], ck[1]));
                lemma_adjacent_ne(start_pos, path@[0]);
                assert forall|i: int| 0 <= i < path@.len() - 1 implies #[trigger] is_adjacent(
                    path@[i],
                    path@[i + 1],
                ) by {
                    assert(path@[i] == ck[i + 1]);
                    assert(path@[i + 1] == ck[i + 2]);
                    assert(is_adjacent(ck[i + 1], ck[i + 2]));
                }
                assert forall|i: int| 0 <= i < path@.len() implies !chunk.blocks(
                    #[trigger] path@[i],
                ) by {
                    assert(path@[i] == ck[i + 1]);
                    assert(!chunk.blocks(ck[i + 1]));
                }
                if !is_adjacent(start_pos, end_pos) && all_neighbors_blocked(*chunk, end_pos) {
                    if path@.len() == 1 {
                        assert(path@[0] == end_pos);
                        assert(is_adjacent(start_pos, end_pos));
                    } else {
                        let a = ck[ck.len() - 2];
                        assert(is_adjacent(a, ck[ck.len() - 1]));
                        assert(!chunk.blocks(a));
                        lemma_adjacent_symm(a, end_pos);
                        let ii = choose|ii: int| 0 <= ii < 8 && is_step(end_pos, a, ii);
                        assert(neighbor_blocked(*chunk, end_pos, ii));
                        assert(chunk.blocks_at(a.x as int, a.y as int));
                        assert(chunk.blocks(a));
                    }
                    assert(false);
                }
                if all_neighbors_blocked(*chunk, start_pos) {
                    let i0 = choose|i0: int| 0 <= i0 < 8 && is_step(start_pos, path@[0], i0);
                    assert(neighbor_blocked(*chunk, start_pos, i0));
                    assert(chunk.blocks_at(path@[0].x as int, path@[0].y as int));
                    assert(chunk.blocks(path@[0]));
                    assert(false);
                }
                if adj_goal {
                    assert(is_goal_entry(arena@, ci as int, end_pos));
                    assert(arena@[ci as int].parent == Some(0usize));
                    assert(chain(arena@, ci as int) == chain(arena@, 0).push(end_pos));
                    assert(chain(arena@, 0) == seq![start_pos]);
                    assert(ck.len() == 2);
                    assert(path@ =~= seq![end_pos]);
                }
            }
            return path;
        }
        // Expand: try each of the 8 neighbours of the selected node.
        let cur_dfs: i64 = arena[ci].dist_from_start;
        proof {
            if ci != 0 {
                assert(wf_entry(arena@, ci as int, *chunk, start_pos));
            }
            assert(0 <= cur_dfs <= ci);
            assert(-(48 * ci as int) <= cur_pos.x - start_pos.x <= 48 * ci as int);
            assert(-(48 * ci as int) <= cur_pos.y - start_pos.y <= 48 * ci as int);
            if adj_goal {
                assert(ci == 0 && cur_pos == start_pos && cur_dfs == 0);
                assert(open@.len() == 0);
                assert(arena@.len() == 1);
                assert(visited@.len() == 1 && visited@[0] == start_pos);
            }
        }
        let offs = adj_8_t();
        let ghost len0: int = arena@.len() as int;
        let ghost open0: int = open@.len() as int;
        let mut k: usize = 0;
        while k < 8
            invariant
                plan_coords_ok(start_pos),
                plan_coords_ok(end_pos),
                wf_arena(arena@, *chunk, start_pos),
                forall|i: int| 0 <= i < open@.len() ==> (#[trigger] open@[i]) < arena@.len(),
                offs@.len() == 8,
                forall|i: int| 0 <= i < 8 ==> offs@[i].x == off_x(i) && offs@[i].y == off_y(i),
                k <= 8,
                1 <= len0 <= 14_142_135,
                len0 <= arena@.len() <= len0 + k,
                open@.len() == open0 + (arena@.len() - len0),
                ci < len0,
                arena@[ci as int].pos == cur_pos,
                arena@[ci as int].dist_from_start == cur_dfs,
                0 <= cur_dfs <= ci,
                -(48 * ci as int) <= cur_pos.x - start_pos.x <= 48 * ci as int,
                -(48 * ci as int) <= cur_pos.y - start_pos.y <= 48 * ci as int,
                adj_goal == (start_pos != end_pos && is_adjacent(start_pos, end_pos)
                    && !chunk.blocks(end_pos)),
                adj_goal ==> {
                    &&& 0 <= gj < 8 && is_step(start_pos, end_pos, gj)
                    &&& ci == 0 && cur_pos == start_pos && cur_dfs == 0 && len0 == 1 && open0 == 0
                    &&& visited@.len() == 1 && visited@[0] == start_pos
                    &&& forall|m: int|
                        0 <= m < open@.len() ==> arena@[#[trigger] open@[m] as int].cost >= 1
                    &&& forall|m: int|
                        0 <= m < open@.len() && arena@[#[trigger] open@[m] as int].cost == 1
                            ==> is_goal_entry(arena@, open@[m] as int, end_pos)
                    &&& (k as int > gj ==> exists|g: int|
                        0 <= g < open@.len() && is_goal_entry(
                            arena@,
                            #[trigger] open@[g] as int,
                            end_pos,
                        ))
                },
            decreases 8 - k,
        {
            let off = offs[k];
            assert(off.x == off_x(k as int) && off.y == off_y(k as int));
            assert(-48 <= off.x <= 48 && -48 <= off.y <= 48);
            proof {
                assert(ci as int <= 14_142_134);
                assert(-679_322_432 <= cur_pos.x <= 679_322_432);
                assert(-679_322_432 <= cur_pos.y <= 679_322_432);
            }
            let node_pos = Pos { x: cur_pos.x + off.x, y: cur_pos.y + off.y };
            let dist_from_start: i64 = cur_dfs + 1;
            proof {
                assert(dist_coords_ok(node_pos));
                assert(dist_coords_ok(end_pos));
                if adj_goal {
                    if k as int == gj {
                        assert(node_pos == end_pos);
                    } else {
                        assert(off_x(k as int) != off_x(gj) || off_y(k as int) != off_y(gj));
                        assert(node_pos != end_pos);
                    }
                }
            }
            let dist_from_target: i64 = get_sqr_dist(node_pos, end_pos);
            // Reject candidates on blocked tiles, tiles already visited,
            // and tiles for which the open set already holds a strictly
            // cheaper route; duplicates of equal cost are kept.
            if !chunk.is_blocked(node_pos) {
                if !contains_pos(&visited, node_pos) {
                    let mut dup: bool = false;
                    let mut m: usize = 0;
                    while m < open.len()
                        invariant
                            m <= open@.len(),
                            forall|i: int|
                                0 <= i < open@.len() ==> (#[trigger] open@[i]) < arena@.len(),
                            wf_arena(arena@, *chunk, start_pos),
                            adj_goal ==> start_pos != end_pos && dist_from_start == 1,
                            adj_goal && node_pos == end_pos ==> dup == false,
                        decreases open@.len() - m,
                    {
                        let oi: usize = open[m];
                        proof {
                            if adj_goal && node_pos == end_pos && arena@[oi as int].pos
                                == node_pos {
                                assert(oi != 0);
                                assert(wf_entry(arena@, oi as int, *chunk, start_pos));
                                assert(arena@[oi as int].dist_from_start >= 1);
                            }
                        }
                        if arena[oi].pos == node_pos && dist_from_start > arena[oi].dist_from_start {
                            dup = true;
                        }
                        m = m + 1;
                    }
                    if !dup {
                        proof {
                            let dx: int = node_pos.x - end_pos.x;
                            let dy: int = node_pos.y - end_pos.y;
                            assert(0 <= dx * dx <= 500_000_000_000_000_000) by (nonlinear_arith)
                                requires
                                    -700_000_000 <= dx <= 700_000_000,
                            ;
                            assert(0 <= dy * dy <= 500_000_000_000_000_000) by (nonlinear_arith)
                                requires
                                    -700_000_000 <= dy <= 700_000_000,
                            ;
                            assert(dist_from_target <= 1_000_000_000_000_000_000);
                        }
                        let cost: i64 = dist_from_start + dist_from_target;
                        let node = Node {
                            pos: node_pos,
                            parent: Some(ci),
                            dist_from_start,
                            dist_from_target,
                            cost,
                        };
                        let ghost pre = arena@;
                        arena.push(node);
                        proof {
                            assert(is_step(cur_pos, node_pos, k as int));
                            lemma_wf_push(pre, node, *chunk, start_pos);
                        }
                        let ni: usize = arena.len() - 1;
                        let ghost open_pre2 = open@;
                        open.push(ni);
                        proof {
                            if adj_goal {
                                let dxe: int = node_pos.x - end_pos.x;
                                let dye: int = node_pos.y - end_pos.y;
                                if node_pos == end_pos {
                                    assert(dxe * dxe + dye * dye == 0) by (nonlinear_arith)
                                        requires
                                            dxe == 0,
                                            dye == 0,
                                    ;
                                    assert(dist_from_target == 0);
                                    assert(cost == 1);
                                    assert(arena@[ni as int] == node);
                                    assert(is_goal_entry(arena@, ni as int, end_pos));
                                } else {
                                    assert(dxe * dxe + dye * dye >= 1) by (nonlinear_arith)
                                        requires
                                            dxe != 0 || dye != 0,
                                    ;
                                    assert(dist_from_target >= 1);
                                    assert(cost >= 2);
                                }
                                assert forall|m2: int| 0 <= m2 < open@.len() implies arena@[#[trigger] open@[m2] as int].cost
                                    >= 1 by {
                                    if m2 < open_pre2.len() {
                                        assert(open@[m2] == open_pre2[m2]);
                                        assert((open_pre2[m2] as int) < pre.len());
                                        assert(arena@[open_pre2[m2] as int] == pre[open_pre2[m2] as int]);
                                    } else {
                                        assert(open@[m2] == ni);
                                    }
                                }
                                assert forall|m2: int|
                                    0 <= m2 < open@.len() && arena@[#[trigger] open@[m2] as int].cost
                                        == 1 implies is_goal_entry(
                                    arena@,
                                    open@[m2] as int,
                                    end_pos,
                                ) by {
                                    if m2 < open_pre2.len() {
                                        assert(open@[m2] == open_pre2[m2]);
                                        assert((open_pre2[m2] as int) < pre.len());
                                        assert(arena@[open_pre2[m2] as int] == pre[open_pre2[m2] as int]);
                                        assert(is_goal_entry(pre, open_pre2[m2] as int, end_pos));
                                        assert(pre[0] == arena@[0]);
                                    } else {
                                        assert(open@[m2] == ni);
                                    }
                                }
                                if k as int == gj {
                                    assert(is_goal_entry(
                                        arena@,
                                        open@[open@.len() - 1] as int,
                                        end_pos,
                                    ));
                                } else if k as int > gj {
                                    let g0 = choose|g: int|
                                        0 <= g < open_pre2.len() && is_goal_entry(
                                            pre,
                                            #[trigger] open_pre2[g] as int,
                                            end_pos,
                                        );
                                    assert(open@[g0] == open_pre2[g0]);
                                    assert(arena@[open_pre2[g0] as int] == pre[open_pre2[g0] as int]);
                                    assert(is_goal_entry(arena@, open@[g0] as int, end_pos));
                                }
                            }
                        }
                    }
                }
            }
            k = k + 1;
        }
        proof {
            if adj_goal {
                assert(goal_in_open(arena@, open@, end_pos));
            }
        }
    }
    proof {
        if adj_goal {
            assert(false);
        }
    }
    Vec::new()
}

/// Greedy step planner: of the 8 tiles adjacent to `start_pos`, pick the
/// unblocked one closest to `end_pos` (first minimum in offset order on a
/// tie), or nothing when every neighbour is blocked. It looks one step
/// ahead only and can walk into dead ends; it is a cheap fallback to the
/// full search.
pub fn next_step(chunk: &Chunk, start_pos: Pos, end_pos: Pos) -> (r: Option<Pos>)
    requires
        plan_coords_ok(start_pos),
        plan_coords_ok(end_pos),
    ensures
        r is Some <==> !all_neighbors_blocked(*chunk, start_pos),
        r matches Some(p) ==> exists|i: int|
            #[trigger] is_best_step(*chunk, start_pos, end_pos, i) && is_step(start_pos, p, i),
        r matches Some(p) ==> !chunk.blocks(p) && is_adjacent(start_pos, p),
{
    let offs = adj_8_t();
    let mut shortest: Option<Pos> = None;
    let mut shortest_dist: Option<i64> = None;
    let ghost mut best_i: int = 0;
    let mut k: usize = 0;
    while k < 8
        invariant
            0 <= k <= 8,
            offs@.len() == 8,
            forall|i: int| 0 <= i < 8 ==> offs@[i].x == off_x(i) && offs@[i].y == off_y(i),
            plan_coords_ok(start_pos),
            plan_coords_ok(end_pos),
            shortest is None ==> shortest_dist is None && forall|j: int|
                0 <= j < k ==> neighbor_blocked(*chunk, start_pos, j),
            shortest matches Some(p) ==> {
                &&& 0 <= best_i < k
                &&& !neighbor_blocked(*chunk, start_pos, best_i)
                &&& is_step(start_pos, p, best_i)
                &&& shortest_dist matches Some(d) && d == step_sqr_dist(
                    start_pos,
                    end_pos,
                    best_i,
                )
                &&& forall|j: int|
                    0 <= j < best_i && !neighbor_blocked(*chunk, start_pos, j)
                        ==> step_sqr_dist(start_pos, end_pos, j) > step_sqr_dist(
                        start_pos,
                        end_pos,
                        best_i,
                    )
                &&& forall|j: int|
                    best_i <= j < k && !neighbor_blocked(*chunk, start_pos, j)
                        ==> step_sqr_dist(start_pos, end_pos, j) >= step_sqr_dist(
                        start_pos,
                        end_pos,
                        best_i,
                    )
            },
        decreases 8 - k,
    {
        let off = offs[k];
        assert(off.x == off_x(k as int) && off.y == off_y(k as int));
        assert(-48 <= off_x(k as int) <= 48 && -48 <= off_y(k as int) <= 48);
        let new_pos = Pos { x: start_pos.x + off.x, y: start_pos.y + off.y };
        let new_dist = get_sqr_dist(new_pos, end_pos);
        assert(new_dist == step_sqr_dist(start_pos, end_pos, k as int));
        if !chunk.is_blocked(new_pos) {
            assert(!neighbor_blocked(*chunk, start_pos, k as int));
            match shortest_dist {
                Some(dist) => {
                    if new_dist < dist {
                        shortest = Some(new_pos);
                        shortest_dist = Some(new_dist);
                        proof {
                            best_i = k as int;
                        }
                    }
                },
                None => {
                    shortest = Some(new_pos);
                    shortest_dist = Some(new_dist);
                    proof {
                        best_i = k as int;
                    }
                },
            }
        } else {
            assert(neighbor_blocked(*chunk, start_pos, k as int));
        }
        k = k + 1;
    }
    proof {
        if shortest is Some {
            assert(is_best_step(*chunk, start_pos, end_pos, best_i));
            assert(!all_neighbors_blocked(*chunk, start_pos));
        }
    }
    shortest
}

} // verus!
