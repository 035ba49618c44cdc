use gridpath::grid::{adj_8_t, get_adj, get_sqr_dist, Pos, T_SIZE};
use gridpath::obstacles::{Chunk, Wall};
use gridpath::planner::Node;

fn p(x: i64, y: i64) -> Pos {
    Pos { x, y }
}

#[test]
fn tile_size_is_48() {
    assert_eq!(T_SIZE, 48);
}

#[test]
fn adj_8_t_order_and_values() {
    let offs = adj_8_t();
    assert_eq!(
        offs,
        vec![
            p(0, -48),
            p(48, -48),
            p(48, 0),
            p(48, 48),
            p(0, 48),
            p(-48, 48),
            p(-48, 0),
            p(-48, -48),
        ]
    );
}

#[test]
fn get_adj_values() {
    let adj = get_adj(3, -2);
    assert_eq!(
        adj,
        vec![
            (3, -3),
            (4, -3),
            (4, -2),
            (4, -1),
            (3, -1),
            (2, -1),
            (2, -2),
            (2, -3),
        ]
    );
}

#[test]
fn get_sqr_dist_exact_values() {
    assert_eq!(get_sqr_dist(p(0, 0), p(48, 96)), 48 * 48 + 96 * 96);
    assert_eq!(get_sqr_dist(p(0, 0), p(0, 0)), 0);
    assert_eq!(get_sqr_dist(p(-48, -48), p(48, 0)), 96 * 96 + 48 * 48);
    assert_eq!(get_sqr_dist(p(96, 0), p(0, 0)), 9216);
}

#[test]
fn wall_records_its_tile() {
    let w = Wall::new(p(96, -48));
    assert_eq!(w.pos, p(96, -48));
}

#[test]
fn empty_chunk_blocks_nothing() {
    let c = Chunk::new();
    assert!(!c.is_blocked(p(0, 0)));
    assert!(!c.is_blocked(p(48, 96)));
}

#[test]
fn is_blocked_matches_wall_positions_exactly() {
    let c = Chunk::from_walls(vec![Wall::new(p(48, 0)), Wall::new(p(0, -96))]);
    assert!(c.is_blocked(p(48, 0)));
    assert!(c.is_blocked(p(0, -96)));
    assert!(!c.is_blocked(p(0, 48)));
    assert!(!c.is_blocked(p(-48, 0)));
    assert!(!c.is_blocked(p(47, 0)));
}

#[test]
fn node_new_root_and_child() {
    let root = Node::new(p(0, 0), None, 0);
    assert_eq!(root.pos, p(0, 0));
    assert_eq!(root.parent, None);
    assert_eq!(root.dist_from_start, 0);
    assert_eq!(root.dist_from_target, 0);
    assert_eq!(root.cost, 0);

    let child = Node::new(p(48, 0), Some(0), 3);
    assert_eq!(child.parent, Some(0));
    assert_eq!(child.dist_from_start, 4);
    assert_eq!(child.dist_from_target, 0);
    assert_eq!(child.cost, 0);
}
