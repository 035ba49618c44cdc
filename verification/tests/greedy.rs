use gridpath::grid::Pos;
use gridpath::obstacles::{Chunk, Wall};
use gridpath::planner::next_step;

fn p(x: i64, y: i64) -> Pos {
    Pos { x, y }
}

fn walls(ps: &[(i64, i64)]) -> Chunk {
    let mut v: Vec<Wall> = Vec::new();
    for &(x, y) in ps {
        v.push(Wall::new(p(x, y)));
    }
    Chunk::from_walls(v)
}

#[test]
fn next_step_moves_toward_target() {
    let c = Chunk::new();
    assert_eq!(next_step(&c, p(0, 0), p(96, 0)), Some(p(48, 0)));
    assert_eq!(next_step(&c, p(0, 0), p(0, -96)), Some(p(0, -48)));
    assert_eq!(next_step(&c, p(0, 0), p(-96, 96)), Some(p(-48, 48)));
}

#[test]
fn next_step_target_adjacent_returns_target() {
    let c = Chunk::new();
    assert_eq!(next_step(&c, p(0, 0), p(48, 48)), Some(p(48, 48)));
}

#[test]
fn next_step_tie_prefers_earlier_offset() {
    // With (48, 0) blocked, (48, -48) and (48, 48) tie for distance to the
    // target; the NE offset comes before SE in the fixed ordering.
    let c = walls(&[(48, 0)]);
    assert_eq!(next_step(&c, p(0, 0), p(96, 0)), Some(p(48, -48)));
}

#[test]
fn next_step_never_returns_blocked_tile() {
    let c = walls(&[(48, 0), (48, -48)]);
    let r = next_step(&c, p(0, 0), p(96, 0));
    assert_eq!(r, Some(p(48, 48)));
    assert!(!c.is_blocked(r.unwrap()));
}

#[test]
fn next_step_blocked_target_picks_closest_open_tile() {
    // The target tile itself is walled; the step goes to the nearest
    // unblocked neighbour instead, never onto the wall.
    let c = walls(&[(48, 48)]);
    assert_eq!(next_step(&c, p(0, 0), p(48, 48)), Some(p(48, 0)));
}

#[test]
fn next_step_all_neighbors_blocked_returns_none() {
    let c = walls(&[
        (0, -48),
        (48, -48),
        (48, 0),
        (48, 48),
        (0, 48),
        (-48, 48),
        (-48, 0),
        (-48, -48),
    ]);
    assert_eq!(next_step(&c, p(0, 0), p(480, 0)), None);
}

#[test]
fn next_step_beside_enclosed_goal_steps_onto_goal() {
    // The goal (0, 0) is fully surrounded by walls. From the wall tile
    // (48, 0) — the start tile itself is never obstacle-checked — the best
    // unblocked neighbour is the goal tile itself.
    let c = walls(&[
        (0, -48),
        (48, -48),
        (48, 0),
        (48, 48),
        (0, 48),
        (-48, 48),
        (-48, 0),
        (-48, -48),
    ]);
    assert_eq!(next_step(&c, p(48, 0), p(0, 0)), Some(p(0, 0)));
}
