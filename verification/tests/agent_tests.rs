use snake_ai::agent::AIAgent;
use snake_ai::grid::{Direction, Position, GRID_HEIGHT, GRID_WIDTH};

/// The eight cells directly around `c`.
fn ring1(c: Position) -> Vec<Position> {
    let mut r = Vec::new();
    for dy in -1i32..=1 {
        for dx in -1i32..=1 {
            if dx != 0 || dy != 0 {
                r.push(Position::new(
                    (c.x as i32 + dx) as u32,
                    (c.y as i32 + dy) as u32,
                ));
            }
        }
    }
    r
}

/// The sixteen cells of the radius-2 box around `c`.
fn ring2(c: Position) -> Vec<Position> {
    let mut r = Vec::new();
    for dy in -2i32..=2 {
        for dx in -2i32..=2 {
            if dx.abs() == 2 || dy.abs() == 2 {
                r.push(Position::new(
                    (c.x as i32 + dx) as u32,
                    (c.y as i32 + dy) as u32,
                ));
            }
        }
    }
    r
}

#[test]
fn flood_fill_open_grid_counts_every_cell() {
    let total = (GRID_WIDTH * GRID_HEIGHT) as usize;
    assert_eq!(AIAgent::flood_fill(Position::new(0, 0), &Vec::new()), total);
    assert_eq!(AIAgent::flood_fill(Position::new(20, 15), &Vec::new()), total);
}

#[test]
fn flood_fill_sealed_pocket_counts_one() {
    let centre = Position::new(5, 5);
    let walls = ring1(centre);
    assert_eq!(AIAgent::flood_fill(centre, &walls), 1);
}

#[test]
fn flood_fill_monotone_under_more_obstacles() {
    // superset obstacle sets reach at most as many cells
    let start = Position::new(0, 0);
    let mut obstacles = Vec::new();
    let mut last = AIAgent::flood_fill(start, &obstacles);
    for x in 1..20 {
        obstacles.push(Position::new(x, 1));
        let now = AIAgent::flood_fill(start, &obstacles);
        assert!(now <= last);
        last = now;
    }
}

#[test]
fn find_path_straight_case_has_manhattan_length() {
    // no obstacles, no wrap shortcut: exactly manhattan-many steps
    let start = Position::new(20, 15);
    let goal = Position::new(10, 10);
    let path = AIAgent::find_path(start, goal, &Vec::new()).expect("open grid must have a path");
    assert_eq!(path.len() as u32, start.manhattan_distance(&goal));
    let mut pos = start;
    for d in path.iter() {
        pos = pos.move_by(*d);
    }
    assert_eq!(pos, goal);
}

#[test]
fn find_path_takes_wrap_shortcut() {
    let start = Position::new(0, 15);
    let goal = Position::new(GRID_WIDTH - 1, 15);
    let path = AIAgent::find_path(start, goal, &Vec::new()).expect("open grid must have a path");
    assert_eq!(path.len(), 1);
    assert_eq!(start.move_by(path[0]), goal);
}

#[test]
fn find_path_avoids_forbidden_cells() {
    // a wall with one gap: the path must thread the gap, never a wall cell
    let start = Position::new(2, 15);
    let goal = Position::new(30, 15);
    let mut obstacles = Vec::new();
    for y in 0..GRID_HEIGHT {
        if y != 3 {
            obstacles.push(Position::new(10, y));
        }
    }
    let path = AIAgent::find_path(start, goal, &obstacles).expect("the gap keeps the goal reachable");
    let mut pos = start;
    for d in path.iter() {
        pos = pos.move_by(*d);
        assert!(!obstacles.contains(&pos));
    }
    assert_eq!(pos, goal);
}

#[test]
fn find_path_none_when_sealed_off() {
    let start = Position::new(5, 5);
    let walls = ring1(start);
    assert!(AIAgent::find_path(start, Position::new(20, 20), &walls).is_none());
}

#[test]
fn find_path_same_arguments_same_length() {
    // the length of the answer is a function of the arguments alone
    let start = Position::new(2, 15);
    let goal = Position::new(30, 18);
    let mut obstacles = Vec::new();
    for y in 5..25 {
        obstacles.push(Position::new(17, y));
    }
    let first = AIAgent::find_path(start, goal, &obstacles).expect("reachable");
    let second = AIAgent::find_path(start, goal, &obstacles).expect("reachable");
    assert_eq!(first.len(), second.len());
}

#[test]
fn is_safe_move_accepts_roomy_cell() {
    // a short snake on an open grid: any free neighbour leaves ample space
    let body = vec![
        Position::new(20, 15),
        Position::new(19, 15),
        Position::new(18, 15),
    ];
    assert!(AIAgent::is_safe_move(Position::new(21, 15), &body));
}

#[test]
fn is_safe_move_rejects_tight_pocket() {
    // a double-walled pocket: at most 2 cells reachable, body has 24 cells
    let centre = Position::new(5, 5);
    let mut body = vec![centre];
    body.extend(ring1(centre));
    body.extend(ring2(centre));
    for d in [Direction::Up, Direction::Down, Direction::Left, Direction::Right] {
        assert!(!AIAgent::is_safe_move(centre.move_by(d), &body));
    }
}

#[test]
fn find_safest_direction_prefers_open_space() {
    // a wall on the right leaves the left side roomier; snake heads right
    let mut body = vec![
        Position::new(20, 15),
        Position::new(19, 15),
        Position::new(18, 15),
    ];
    for y in 0..GRID_HEIGHT {
        if y != 0 {
            body.push(Position::new(21, y));
        }
    }
    let best = AIAgent::find_safest_direction(Position::new(20, 15), &body, Direction::Right);
    // up and down both lead into the large open region; up comes first
    assert_eq!(best, Direction::Up);
}

#[test]
fn find_safest_direction_keeps_heading_when_trapped() {
    let centre = Position::new(5, 5);
    let mut body = vec![centre];
    body.extend(ring1(centre));
    let best = AIAgent::find_safest_direction(centre, &body, Direction::Up);
    assert_eq!(best, Direction::Up);
}

#[test]
fn find_path_straight_cases_sampled_across_grid() {
    // sampled start/goal pairs without a wrap shortcut on either axis:
    // the open-grid path length equals the Manhattan distance
    for sy in [2u32, 9, 14] {
        for sx in [3u32, 11, 19] {
            for gy in [4u32, 12, 16] {
                for gx in [6u32, 13, 21] {
                    let start = Position::new(sx, sy);
                    let goal = Position::new(gx, gy);
                    let dx = sx.abs_diff(gx);
                    let dy = sy.abs_diff(gy);
                    assert!(dx <= GRID_WIDTH - dx && dy <= GRID_HEIGHT - dy);
                    let path = AIAgent::find_path(start, goal, &Vec::new()).expect("open grid");
                    assert_eq!(path.len() as u32, dx + dy);
                }
            }
        }
    }
}

#[test]
fn find_path_to_own_cell_is_empty() {
    // the goal test precedes any expansion, so the path is empty for any
    // obstacle set that leaves the start alone
    let start = Position::new(5, 5);
    let path = AIAgent::find_path(start, start, &Vec::new()).expect("a cell reaches itself");
    assert_eq!(path.len(), 0);
    let walled = ring1(start);
    let path = AIAgent::find_path(start, start, &walled).expect("a cell reaches itself");
    assert_eq!(path.len(), 0);
}

#[test]
fn find_path_straight_case_holds_around_obstacles() {
    // obstacles that leave a straight corridor untouched: the planner still
    // answers with exactly Manhattan-many steps
    let start = Position::new(2, 10);
    let goal = Position::new(12, 10);
    let mut obstacles = Vec::new();
    for y in 12..GRID_HEIGHT {
        obstacles.push(Position::new(5, y));
    }
    let path = AIAgent::find_path(start, goal, &obstacles).expect("corridor open");
    assert_eq!(path.len() as u32, start.manhattan_distance(&goal));
    let mut pos = start;
    for d in path.iter() {
        pos = pos.move_by(*d);
        assert!(!obstacles.contains(&pos));
    }
    assert_eq!(pos, goal);
}
