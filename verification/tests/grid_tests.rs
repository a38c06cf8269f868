use snake_ai::grid::{Direction, Position, GRID_HEIGHT, GRID_WIDTH};

#[test]
fn move_by_basic_steps() {
    let p = Position::new(5, 5);
    assert_eq!(p.move_by(Direction::Up), Position::new(5, 4));
    assert_eq!(p.move_by(Direction::Down), Position::new(5, 6));
    assert_eq!(p.move_by(Direction::Left), Position::new(4, 5));
    assert_eq!(p.move_by(Direction::Right), Position::new(6, 5));
}

#[test]
fn move_by_wraps_at_edges() {
    assert_eq!(Position::new(0, 0).move_by(Direction::Left), Position::new(GRID_WIDTH - 1, 0));
    assert_eq!(Position::new(0, 0).move_by(Direction::Up), Position::new(0, GRID_HEIGHT - 1));
    assert_eq!(
        Position::new(GRID_WIDTH - 1, 7).move_by(Direction::Right),
        Position::new(0, 7)
    );
    assert_eq!(
        Position::new(3, GRID_HEIGHT - 1).move_by(Direction::Down),
        Position::new(3, 0)
    );
}

#[test]
fn move_by_opposite_returns_home_everywhere() {
    // wrap arithmetic is self-inverse on every cell and every direction
    let dirs = [Direction::Up, Direction::Down, Direction::Left, Direction::Right];
    for y in 0..GRID_HEIGHT {
        for x in 0..GRID_WIDTH {
            let p = Position::new(x, y);
            for d in dirs.iter() {
                assert_eq!(p.move_by(*d).move_by(d.opposite()), p);
            }
        }
    }
}

#[test]
fn opposite_is_an_involution() {
    let dirs = [Direction::Up, Direction::Down, Direction::Left, Direction::Right];
    for d in dirs.iter() {
        assert_ne!(d.opposite(), *d);
        assert_eq!(d.opposite().opposite(), *d);
    }
    assert_eq!(Direction::Up.opposite(), Direction::Down);
    assert_eq!(Direction::Left.opposite(), Direction::Right);
}

#[test]
fn delta_unit_vectors() {
    assert_eq!(Direction::Up.delta(), (0, -1));
    assert_eq!(Direction::Down.delta(), (0, 1));
    assert_eq!(Direction::Left.delta(), (-1, 0));
    assert_eq!(Direction::Right.delta(), (1, 0));
}

#[test]
fn manhattan_distance_exact_values() {
    let a = Position::new(20, 15);
    let b = Position::new(10, 10);
    assert_eq!(a.manhattan_distance(&b), 15);
    assert_eq!(b.manhattan_distance(&a), 15);
    assert_eq!(a.manhattan_distance(&a), 0);
    // not wrap-aware: straight-line measure even across the short way round
    assert_eq!(
        Position::new(0, 0).manhattan_distance(&Position::new(GRID_WIDTH - 1, 0)),
        GRID_WIDTH - 1
    );
}

#[test]
fn neighbors_in_canonical_order() {
    let p = Position::new(5, 5);
    let n = p.neighbors();
    assert_eq!(n.len(), 4);
    assert_eq!(n[0], (Direction::Up, Position::new(5, 4)));
    assert_eq!(n[1], (Direction::Down, Position::new(5, 6)));
    assert_eq!(n[2], (Direction::Left, Position::new(4, 5)));
    assert_eq!(n[3], (Direction::Right, Position::new(6, 5)));
}
