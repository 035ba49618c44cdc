use gridpath::grid::Pos;
use gridpath::obstacles::{Chunk, Wall};
use gridpath::planner::plan_path;

fn p(x: i64, y: i64) -> Pos {
    Pos { x, y }
}

fn walls(ps: &[(i64, i64)]) -> Chunk {
    let mut v: Vec<Wall> = Vec::new();
    for &(x, y) in ps {
        v.push(Wall::new(p(x, y)));
    }
    Chunk::from_walls(v)
}

fn assert_valid_path(c: &Chunk, start: Pos, goal: Pos, path: &[Pos]) {
    assert!(!path.is_empty());
    assert_ne!(path[0], start);
    assert_eq!(*path.last().unwrap(), goal);
    let mut prev = start;
    for &q in path {
        let dx = (q.x - prev.x).abs();
        let dy = (q.y - prev.y).abs();
        assert!(dx <= 48 && dy <= 48 && dx + dy > 0 && dx % 48 == 0 && dy % 48 == 0);
        assert!(!c.is_blocked(q));
        prev = q;
    }
}

#[test]
fn plan_path_start_equals_goal_is_empty() {
    let c = Chunk::new();
    assert_eq!(plan_path(&c, p(0, 0), p(0, 0)), Vec::<Pos>::new());
    let c2 = walls(&[(48, 0), (0, 48)]);
    assert_eq!(plan_path(&c2, p(96, 96), p(96, 96)), Vec::<Pos>::new());
}

#[test]
fn plan_path_adjacent_goal_returns_single_step() {
    let c = Chunk::new();
    assert_eq!(plan_path(&c, p(0, 0), p(48, 0)), vec![p(48, 0)]);
    assert_eq!(plan_path(&c, p(0, 0), p(-48, -48)), vec![p(-48, -48)]);
    let crowded = walls(&[(0, -48), (0, 48), (-48, 0)]);
    assert_eq!(plan_path(&crowded, p(0, 0), p(48, 48)), vec![p(48, 48)]);
}

#[test]
fn plan_path_two_tiles_straight() {
    let c = Chunk::new();
    let path = plan_path(&c, p(0, 0), p(96, 0));
    assert_eq!(path, vec![p(48, 0), p(96, 0)]);
}

#[test]
fn plan_path_enclosed_goal_is_empty() {
    let c = walls(&[
        (0, -48),
        (48, -48),
        (48, 0),
        (48, 48),
        (0, 48),
        (-48, 48),
        (-48, 0),
        (-48, -48),
    ]);
    assert_eq!(plan_path(&c, p(144, 0), p(0, 0)), Vec::<Pos>::new());
}

#[test]
fn plan_path_enclosed_start_is_empty() {
    let c = walls(&[
        (0, -48),
        (48, -48),
        (48, 0),
        (48, 48),
        (0, 48),
        (-48, 48),
        (-48, 0),
        (-48, -48),
    ]);
    assert_eq!(plan_path(&c, p(0, 0), p(480, 0)), Vec::<Pos>::new());
}

#[test]
fn plan_path_detours_around_short_wall() {
    let c = walls(&[(48, -48), (48, 0), (48, 48)]);
    let start = p(0, 0);
    let goal = p(96, 0);
    let path = plan_path(&c, start, goal);
    assert_valid_path(&c, start, goal, &path);
}

#[test]
fn plan_path_positions_are_unblocked() {
    let c = walls(&[(96, -48), (96, 0), (96, 48), (144, 96), (48, 96)]);
    let start = p(0, 0);
    let goal = p(192, 0);
    let path = plan_path(&c, start, goal);
    assert_valid_path(&c, start, goal, &path);
    for &q in &path {
        assert!(!c.is_blocked(q));
    }
}

#[test]
fn plan_path_start_on_wall_is_trusted() {
    // Only expanded neighbours are obstacle-checked; the start tile itself
    // is trusted unconditionally, even when a wall sits on it.
    let c = walls(&[(0, 0)]);
    let path = plan_path(&c, p(0, 0), p(96, 0));
    assert_eq!(path, vec![p(48, 0), p(96, 0)]);
}

#[test]
fn plan_path_blocked_goal_is_empty() {
    // A node is only retained on an unblocked tile, so a wall on the goal
    // itself can never be entered; the bounded search gives up.
    let c = walls(&[(48, 0)]);
    assert_eq!(plan_path(&c, p(0, 0), p(48, 0)), Vec::<Pos>::new());
}

#[test]
fn plan_path_long_wall_hits_cutoff() {
    // Start and goal are two tiles apart, so the search may create at most
    // 960 nodes. A contiguous wall 401 tiles long blocks every route within
    // that horizon; a real route exists around its far ends, but the search
    // gives up first and reports no path.
    let mut v: Vec<Wall> = Vec::new();
    let mut k: i64 = -200;
    while k <= 200 {
        v.push(Wall::new(p(48, 48 * k)));
        k += 1;
    }
    let c = Chunk::from_walls(v);
    assert_eq!(plan_path(&c, p(0, 0), p(96, 0)), Vec::<Pos>::new());
}
