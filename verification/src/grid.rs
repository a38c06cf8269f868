use vstd::arithmetic::div_mod::{
    lemma_fundamental_div_mod_converse_div, lemma_fundamental_div_mod_converse_mod,
};
use vstd::prelude::*;
use vstd::set_lib::{lemma_int_range, lemma_len_subset, lemma_map_size_bound, set_int_range};

verus! {

/// Width of the toroidal grid, in cells.
pub const GRID_WIDTH: u32 = 40;

/// Height of the toroidal grid, in cells.
pub const GRID_HEIGHT: u32 = 30;

/// A cell of the grid. A well-formed position satisfies `pos_wf`:
/// `0 <= x < GRID_WIDTH` and `0 <= y < GRID_HEIGHT`.
#[derive(Clone, Copy, Debug, PartialEq, Eq, Structural)]
pub struct Position {
    pub x: u32,
    pub y: u32,
}

/// One of the four orthogonal movement directions.
#[derive(Clone, Copy, Debug, PartialEq, Eq, Structural)]
pub enum Direction {
    Up,
    Down,
    Left,
    Right,
}

/// A position lies on the grid.
pub open spec fn pos_wf(p: Position) -> bool {
    p.x < GRID_WIDTH && p.y < GRID_HEIGHT
}

/// Decrement a coordinate modulo `m` (Euclidean wrap: 0 wraps to `m - 1`).
pub open spec fn wrap_dec(v: u32, m: u32) -> u32 {
    if v == 0 {
        (m - 1) as u32
    } else {
        (v - 1) as u32
    }
}

/// Increment a coordinate modulo `m` (`m - 1` wraps to 0).
pub open spec fn wrap_inc(v: u32, m: u32) -> u32 {
    if v + 1 == m {
        0u32
    } else {
        (v + 1) as u32
    }
}

/// The cell reached from `p` by one step in direction `d`, with both axes
/// wrapping independently (toroidal movement). For well-formed positions this
/// agrees with applying the direction's unit delta and taking the Euclidean
/// (floored) modulo of each coordinate.
pub open spec fn move_by_spec(p: Position, d: Direction) -> Position {
    match d {
        Direction::Up => Position { x: p.x, y: wrap_dec(p.y, GRID_HEIGHT) },
        Direction::Down => Position { x: p.x, y: wrap_inc(p.y, GRID_HEIGHT) },
        Direction::Left => Position { x: wrap_dec(p.x, GRID_WIDTH), y: p.y },
        Direction::Right => Position { x: wrap_inc(p.x, GRID_WIDTH), y: p.y },
    }
}

/// The direction pointing the opposite way.
pub open spec fn opposite_spec(d: Direction) -> Direction {
    match d {
        Direction::Up => Direction::Down,
        Direction::Down => Direction::Up,
        Direction::Left => Direction::Right,
        Direction::Right => Direction::Left,
    }
}

/// Absolute difference of two coordinates, as a mathematical integer.
pub open spec fn abs_diff(a: u32, b: u32) -> int {
    if a >= b {
        a - b
    } else {
        b - a
    }
}

/// Manhattan distance: sum of absolute per-axis differences. This is a
/// straight-line measure on the unwrapped grid; it deliberately ignores
/// toroidal shortcuts (a documented approximation of the search heuristic).
pub open spec fn manhattan_spec(a: Position, b: Position) -> int {
    abs_diff(a.x, b.x) + abs_diff(a.y, b.y)
}

/// Toroidal distance along one axis of modulus `m`: the smaller of the two
/// ways round.
pub open spec fn axis_dist(a: u32, b: u32, m: u32) -> int {
    if abs_diff(a, b) <= m - abs_diff(a, b) {
        abs_diff(a, b)
    } else {
        m - abs_diff(a, b)
    }
}

/// True toroidal distance between two cells: the least number of wrapped
/// steps between them. It never exceeds the Manhattan distance, and equals it
/// exactly when neither axis has a wrap shortcut.
pub open spec fn torus_dist(a: Position, b: Position) -> int {
    axis_dist(a.x, b.x, GRID_WIDTH) + axis_dist(a.y, b.y, GRID_HEIGHT)
}

/// One wrapped step moves a cell's toroidal distance to any fixed target by
/// at most one.
pub proof fn lemma_step_changes_dist_by_one(p: Position, d: Direction, c: Position)
    requires
        pos_wf(p),
        pos_wf(c),
    ensures
        torus_dist(move_by_spec(p, d), c) >= torus_dist(p, c) - 1,
        torus_dist(move_by_spec(p, d), c) <= torus_dist(p, c) + 1,
{
}

/// The toroidal distance never exceeds the straight-line Manhattan distance.
pub proof fn lemma_torus_dist_le_manhattan(a: Position, b: Position)
    requires
        pos_wf(a),
        pos_wf(b),
    ensures
        0 <= torus_dist(a, b) <= manhattan_spec(a, b),
        torus_dist(a, b) == 0 <==> a == b,
{
}

/// Two cells are orthogonally adjacent under wrap arithmetic: one step in
/// some direction leads from the first to the second.
pub open spec fn adjacent(a: Position, b: Position) -> bool {
    exists|d: Direction| #[trigger] move_by_spec(a, d) == b
}

/// One wrapped step always lands on a different cell.
pub proof fn lemma_move_changes(p: Position, d: Direction)
    requires
        pos_wf(p),
    ensures
        move_by_spec(p, d) != p,
{
}

/// The toroidal distance is symmetric.
pub proof fn lemma_torus_symmetry(a: Position, b: Position)
    ensures
        torus_dist(a, b) == torus_dist(b, a),
{
}

/// The toroidal distance obeys the triangle inequality.
pub proof fn lemma_torus_triangle(a: Position, b: Position, c: Position)
    requires
        pos_wf(a),
        pos_wf(b),
        pos_wf(c),
    ensures
        torus_dist(a, c) <= torus_dist(a, b) + torus_dist(b, c),
{
}

/// The four directions in their canonical enumeration order.
pub open spec fn all_dirs() -> Seq<Direction> {
    seq![Direction::Up, Direction::Down, Direction::Left, Direction::Right]
}

/// Index of a direction in the canonical enumeration order.
pub open spec fn dir_index(d: Direction) -> int {
    match d {
        Direction::Up => 0,
        Direction::Down => 1,
        Direction::Left => 2,
        Direction::Right => 3,
    }
}

/// Row-major cell number of a position.
pub open spec fn idx_spec(p: Position) -> int {
    p.y * (GRID_WIDTH as int) + p.x
}

/// Total number of grid cells.
pub open spec fn grid_cells() -> int {
    (GRID_WIDTH as int) * (GRID_HEIGHT as int)
}

/// The position whose row-major cell number is `i`.
pub open spec fn pos_of_idx(i: int) -> Position {
    Position { x: (i % (GRID_WIDTH as int)) as u32, y: (i / (GRID_WIDTH as int)) as u32 }
}

/// The set of all well-formed positions.
pub open spec fn all_positions() -> Set<Position> {
    Set::new(|p: Position| pos_wf(p))
}

/// Moving preserves well-formedness.
pub proof fn lemma_move_wf(p: Position, d: Direction)
    requires
        pos_wf(p),
    ensures
        pos_wf(move_by_spec(p, d)),
{
}

/// A direction is never its own opposite, and the opposite relation is an
/// involution.
pub proof fn lemma_opposite(d: Direction)
    ensures
        opposite_spec(d) != d,
        opposite_spec(opposite_spec(d)) == d,
{
}

/// Law: wrap arithmetic is self-inverse. For every cell of the grid, one step
/// in a direction followed by one step in the opposite direction returns to
/// the original cell.
pub proof fn lemma_move_by_opposite(p: Position, d: Direction)
    requires
        pos_wf(p),
    ensures
        move_by_spec(move_by_spec(p, d), opposite_spec(d)) == p,
{
}

/// The row-major cell number is injective on well-formed positions and ranges
/// over `0 .. grid_cells()`.
pub proof fn lemma_idx_bijective(p: Position)
    requires
        pos_wf(p),
    ensures
        0 <= idx_spec(p) < grid_cells(),
        pos_of_idx(idx_spec(p)) == p,
{
    lemma_fundamental_div_mod_converse_mod(idx_spec(p), GRID_WIDTH as int, p.y as int, p.x as int);
    lemma_fundamental_div_mod_converse_div(idx_spec(p), GRID_WIDTH as int, p.y as int, p.x as int);
}

/// There are finitely many grid cells: at most `grid_cells()`.
pub proof fn lemma_all_positions_finite()
    ensures
        all_positions().finite(),
        all_positions().len() <= grid_cells(),
{
    let f = |i: int| pos_of_idx(i);
    let rng = set_int_range(0, grid_cells());
    lemma_int_range(0, grid_cells());
    assert forall|p: Position| all_positions().contains(p) implies rng.map(f).contains(p) by {
        lemma_idx_bijective(p);
        assert(rng.contains(idx_spec(p)) && f(idx_spec(p)) == p);
    }
    lemma_map_size_bound(rng, rng.map(f), f);
    lemma_len_subset(all_positions(), rng.map(f));
}

impl Position {
    /// Build a position from its coordinates.
    pub fn new(x: u32, y: u32) -> (r: Position)
        ensures
            r == (Position { x, y }),
    {
        Position { x, y }
    }

    /// Apply one step of `direction`, wrapping around the grid edges.
    pub fn move_by(&self, direction: Direction) -> (r: Position)
        requires
            pos_wf(*self),
        ensures
            r == move_by_spec(*self, direction),
            pos_wf(r),
    {
        match direction {
            Direction::Up => Position {
                x: self.x,
                y: if self.y == 0 { GRID_HEIGHT - 1 } else { self.y - 1 },
            },
            Direction::Down => Position {
                x: self.x,
                y: if self.y + 1 == GRID_HEIGHT { 0 } else { self.y + 1 },
            },
            Direction::Left => Position {
                x: if self.x == 0 { GRID_WIDTH - 1 } else { self.x - 1 },
                y: self.y,
            },
            Direction::Right => Position {
                x: if self.x + 1 == GRID_WIDTH { 0 } else { self.x + 1 },
                y: self.y,
            },
        }
    }

    /// Sum of absolute per-axis coordinate differences (not wrap-aware).
    pub fn manhattan_distance(&self, other: &Position) -> (r: u32)
        requires
            pos_wf(*self),
            pos_wf(*other),
        ensures
            r as int == manhattan_spec(*self, *other),
            r < GRID_WIDTH + GRID_HEIGHT,
    {
        let dx = if self.x >= other.x { self.x - other.x } else { other.x - self.x };
        let dy = if self.y >= other.y { self.y - other.y } else { other.y - self.y };
        dx + dy
    }

    /// The four neighbouring cells, one per direction, in the canonical
    /// direction order.
    pub fn neighbors(&self) -> (r: Vec<(Direction, Position)>)
        requires
            pos_wf(*self),
        ensures
            r@.len() == 4,
            forall|i: int|
                0 <= i < 4 ==> (#[trigger] r@[i]).0 == all_dirs()[i] && r@[i].1 == move_by_spec(
                    *self,
                    all_dirs()[i],
                ),
    {
        let mut r: Vec<(Direction, Position)> = Vec::new();
        r.push((Direction::Up, self.move_by(Direction::Up)));
        r.push((Direction::Down, self.move_by(Direction::Down)));
        r.push((Direction::Left, self.move_by(Direction::Left)));
        r.push((Direction::Right, self.move_by(Direction::Right)));
        r
    }
}

impl Direction {
    /// The unit delta vector of the direction, `(dx, dy)`.
    pub fn delta(&self) -> (r: (i32, i32))
        ensures
            *self == Direction::Up ==> r == (0i32, -1i32),
            *self == Direction::Down ==> r == (0i32, 1i32),
            *self == Direction::Left ==> r == (-1i32, 0i32),
            *self == Direction::Right ==> r == (1i32, 0i32),
    {
        match self {
            Direction::Up => (0, -1),
            Direction::Down => (0, 1),
            Direction::Left => (-1, 0),
            Direction::Right => (1, 0),
        }
    }

    /// The direction pointing the opposite way.
    pub fn opposite(&self) -> (r: Direction)
        ensures
            r == opposite_spec(*self),
    {
        match self {
            Direction::Up => Direction::Down,
            Direction::Down => Direction::Up,
            Direction::Left => Direction::Right,
            Direction::Right => Direction::Left,
        }
    }

    /// All four directions, in the canonical enumeration order.
    pub fn all() -> (r: Vec<Direction>)
        ensures
            r@ == all_dirs(),
    {
        let mut r: Vec<Direction> = Vec::new();
        r.push(Direction::Up);
        r.push(Direction::Down);
        r.push(Direction::Left);
        r.push(Direction::Right);
        proof {
            assert(r@ =~= all_dirs());
        }
        r
    }
}

} // verus!
