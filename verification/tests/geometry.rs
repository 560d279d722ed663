use tower_core::arith::{ceil_div, floor_div, log2_floor_u64};
use tower_core::entropy_queue::{EntropyEntry, EntropyQueue};
use tower_core::grid::Grid;
use tower_core::position::Position;
use tower_core::raycast::Raycast;
use tower_core::tile::Tile;

#[test]
fn test_position_ops() {
    let a = Position::new(3, -2);
    let b = Position::new(-1, 5);
    let s = a.add(&b);
    assert_eq!((s.x, s.y), (2, 3));
    let d = a.sub(&b);
    assert_eq!((d.x, d.y), (4, -7));
    let m = a.mul(3);
    assert_eq!((m.x, m.y), (9, -6));
    let ab = d.abs();
    assert_eq!((ab.x, ab.y), (4, 7));
    assert_eq!(a.distance2(&b), 4 * 4 + 7 * 7);
}

#[test]
fn test_neighbors_order() {
    let p = Position::new(10, 20);
    let n = p.neighbors();
    assert_eq!(n.len(), 4);
    assert_eq!(n[0], Position::new(10, 21));
    assert_eq!(n[1], Position::new(10, 19));
    assert_eq!(n[2], Position::new(9, 20));
    assert_eq!(n[3], Position::new(11, 20));
}

#[test]
fn test_quadrant_transform() {
    let o = Position::new(5, 5);
    let rel = Position::new(2, 1);
    assert_eq!(o.quadrant_transform(&Position::up(), &rel), Position::new(6, 7));
    assert_eq!(o.quadrant_transform(&Position::down(), &rel), Position::new(6, 3));
    assert_eq!(o.quadrant_transform(&Position::left(), &rel), Position::new(3, 6));
    assert_eq!(o.quadrant_transform(&Position::right(), &rel), Position::new(7, 6));
}

#[test]
fn test_grid_bounds() {
    let mut g: Grid<Tile> = Grid::new(4, 3);
    assert_eq!(g.len(), 12);
    assert!(g.get(&Position::new(-1, 0)).is_none());
    assert!(g.get(&Position::new(4, 0)).is_none());
    assert!(g.get(&Position::new(0, 3)).is_none());
    assert!(g.get(&Position::new(0, -1)).is_none());
    assert!(g.get(&Position::new(3, 2)).is_some());
    // a written cell reads back
    let p = Position::new(2, 1);
    {
        let t = g.get_mut(&p);
        t.walkable = false;
    }
    assert!(!g.get(&p).unwrap().walkable);
    assert!(g.get(&Position::new(1, 1)).unwrap().walkable);
}

#[test]
fn test_raycast_steps() {
    // straight line right
    let mut rc = Raycast::new(Position::new(0, 0), Position::new(3, 0));
    let mut path = Vec::new();
    while let Some(p) = rc.next() {
        path.push(p);
    }
    assert_eq!(
        path,
        vec![Position::new(1, 0), Position::new(2, 0), Position::new(3, 0)]
    );
    // pure diagonal
    let mut rc = Raycast::new(Position::new(2, 2), Position::new(0, 0));
    let mut path = Vec::new();
    while let Some(p) = rc.next() {
        path.push(p);
    }
    assert_eq!(path, vec![Position::new(1, 1), Position::new(0, 0)]);
    // already there
    let mut rc = Raycast::new(Position::new(1, 1), Position::new(1, 1));
    assert!(rc.next().is_none());
}

#[test]
fn test_entropy_queue_pops_minimum() {
    let mut q = EntropyQueue::new();
    q.push(EntropyEntry { key: 30, pos: Position::new(0, 0) });
    q.push(EntropyEntry { key: 10, pos: Position::new(1, 0) });
    q.push(EntropyEntry { key: 20, pos: Position::new(2, 0) });
    assert_eq!(q.pop().unwrap().key, 10);
    assert_eq!(q.pop().unwrap().key, 20);
    assert_eq!(q.pop().unwrap().key, 30);
    assert!(q.pop().is_none());
}

#[test]
fn test_division_rounding() {
    assert_eq!(floor_div(7, 2), 3);
    assert_eq!(floor_div(-7, 2), -4);
    assert_eq!(floor_div(-8, 2), -4);
    assert_eq!(ceil_div(7, 2), 4);
    assert_eq!(ceil_div(-7, 2), -3);
    assert_eq!(ceil_div(8, 2), 4);
}

#[test]
fn test_log2_floor() {
    assert_eq!(log2_floor_u64(0), 0);
    assert_eq!(log2_floor_u64(1), 0);
    assert_eq!(log2_floor_u64(2), 1);
    assert_eq!(log2_floor_u64(3), 1);
    assert_eq!(log2_floor_u64(1024), 10);
    assert_eq!(log2_floor_u64(1025), 10);
}
