use crate::agent::{cell_index, false_mask, make_mask, AIAgent};
use crate::grid::{
    all_positions, grid_cells, idx_spec, lemma_all_positions_finite, lemma_idx_bijective,
    lemma_move_by_opposite, lemma_move_changes, lemma_opposite, lemma_step_changes_dist_by_one,
    lemma_torus_dist_le_manhattan, lemma_torus_symmetry, lemma_torus_triangle, manhattan_spec,
    move_by_spec, opposite_spec, pos_wf, torus_dist, Direction, Position, GRID_HEIGHT, GRID_WIDTH,
};
use crate::reach::{
    follow_path, lemma_closed_set_covers, lemma_follow_subrange_step, lemma_path_ok_prefix,
    lemma_reachable_self, lemma_straight_prefix, lemma_walk_at_least_dist, path_ok, reachable,
    straight_instance, straight_path,
};
use vstd::prelude::*;
use vstd::set_lib::lemma_len_subset;

verus! {

/// A frontier entry of the planner: a cell, the number of steps taken to
/// reach it (`g_cost`), the Manhattan estimate of the steps remaining
/// (`h_cost`), and the direction by which it was first reached.
pub struct Node {
    pub position: Position,
    pub g_cost: u32,
    pub h_cost: u32,
    pub parent: Option<Direction>,
}

impl Node {
    /// The ordering key of the frontier: estimated total path cost.
    pub fn f_cost(&self) -> (r: u32)
        requires
            self.g_cost + self.h_cost <= u32::MAX,
        ensures
            r == self.g_cost + self.h_cost,
    {
        self.g_cost + self.h_cost
    }
}

/// The cells that carry a predecessor entry.
pub(crate) open spec fn dset_of(entries: Seq<Option<(Direction, u32)>>) -> Set<Position> {
    Set::new(|p: Position| pos_wf(p) && entries[idx_spec(p)].is_some())
}

/// The cells already expanded (closed).
pub(crate) open spec fn cset_of(cmask: Seq<bool>) -> Set<Position> {
    Set::new(|p: Position| pos_wf(p) && cmask[idx_spec(p)])
}

/// The predecessor entry of a discovered cell: the direction that first
/// reached it and the step count at which it was discovered.
pub(crate) open spec fn entry_at(
    entries: Seq<Option<(Direction, u32)>>,
    p: Position,
) -> (Direction, u32) {
    entries[idx_spec(p)]->Some_0
}

/// A discovered cell's entry is consistent: the cell is free and not the
/// start, and walking one step back against the recorded direction lands on
/// either the start or another discovered cell with a strictly smaller step
/// count, so every back-walk reaches the start.
pub(crate) open spec fn entry_ok(
    entries: Seq<Option<(Direction, u32)>>,
    obst: Set<Position>,
    start: Position,
    p: Position,
) -> bool {
    let (d, g) = entry_at(entries, p);
    let pred = move_by_spec(p, opposite_spec(d));
    &&& !obst.contains(p)
    &&& p != start
    &&& 1 <= g <= dset_of(entries).len()
    &&& pos_wf(pred)
    &&& move_by_spec(pred, d) == p
    &&& (pred == start || dset_of(entries).contains(pred) && entry_at(entries, pred).1 < g)
}

/// Every discovered cell has a consistent entry.
pub(crate) open spec fn entries_ok(
    entries: Seq<Option<(Direction, u32)>>,
    obst: Set<Position>,
    start: Position,
) -> bool {
    forall|p: Position|
        #[trigger] dset_of(entries).contains(p) ==> entry_ok(entries, obst, start, p)
}

/// A frontier node is consistent with the masks: its cell is on the grid,
/// not yet closed, and its step count matches the cell's entry (the start
/// cell carries no entry and step count zero).
pub(crate) open spec fn node_ok(
    n: Node,
    entries: Seq<Option<(Direction, u32)>>,
    cmask: Seq<bool>,
    start: Position,
) -> bool {
    &&& pos_wf(n.position)
    &&& !cset_of(cmask).contains(n.position)
    &&& (n.position == start && n.g_cost == 0 || dset_of(entries).contains(n.position)
        && entry_at(entries, n.position).1 == n.g_cost)
    &&& n.g_cost <= dset_of(entries).len()
    &&& n.h_cost < GRID_WIDTH + GRID_HEIGHT
}

/// The frontier is consistent and holds each cell at most once.
pub(crate) open spec fn open_ok(
    open: Seq<Node>,
    entries: Seq<Option<(Direction, u32)>>,
    cmask: Seq<bool>,
    start: Position,
) -> bool {
    &&& forall|k: int| 0 <= k < open.len() ==> node_ok(#[trigger] open[k], entries, cmask, start)
    &&& forall|k1: int, k2: int|
        0 <= k1 < k2 < open.len() ==> open[k1].position != open[k2].position
}

/// Every discovered or start cell that is not yet closed sits in the
/// frontier.
pub(crate) open spec fn frontier_covers(
    open: Seq<Node>,
    entries: Seq<Option<(Direction, u32)>>,
    cmask: Seq<bool>,
    start: Position,
) -> bool {
    forall|p: Position|
        #![trigger cset_of(cmask).contains(p)]
        (dset_of(entries).contains(p) || p == start) && !cset_of(cmask).contains(p) ==> exists|k: int|
            0 <= k < open.len() && (#[trigger] open[k].position) == p
}

/// Every closed cell has each of its free neighbours discovered (or the
/// neighbour is the start cell).
pub(crate) open spec fn closed_expanded(
    entries: Seq<Option<(Direction, u32)>>,
    cmask: Seq<bool>,
    obst: Set<Position>,
    start: Position,
) -> bool {
    forall|p: Position, dd: Direction|
        cset_of(cmask).contains(p) && !obst.contains(#[trigger] move_by_spec(p, dd)) ==> dset_of(
            entries,
        ).contains(move_by_spec(p, dd)) || move_by_spec(p, dd) == start
}

/// Every discovered cell's step count is at least its true toroidal distance
/// from the start: a recorded route is a real walk.
pub(crate) open spec fn entries_dist_ok(
    entries: Seq<Option<(Direction, u32)>>,
    start: Position,
) -> bool {
    forall|p: Position|
        #[trigger] dset_of(entries).contains(p) ==> entry_at(entries, p).1 >= torus_dist(start, p)
}

/// Every frontier node carries the Manhattan estimate of its own cell.
pub(crate) open spec fn open_h_ok(open: Seq<Node>, goal: Position) -> bool {
    forall|k: int|
        0 <= k < open.len() ==> (#[trigger] open[k]).h_cost == manhattan_spec(
            open[k].position,
            goal,
        )
}

/// The recorded step count of a cell, with the start cell at zero.
pub(crate) open spec fn cost_of(
    entries: Seq<Option<(Direction, u32)>>,
    start: Position,
    p: Position,
) -> int {
    if p == start {
        0
    } else {
        entry_at(entries, p).1 as int
    }
}

/// In a straight instance every closed cell was expanded at its optimal step
/// count: exactly its toroidal distance from the start.
pub(crate) open spec fn closed_optimal(
    entries: Seq<Option<(Direction, u32)>>,
    cmask: Seq<bool>,
    start: Position,
) -> bool {
    forall|p: Position|
        #[trigger] cset_of(cmask).contains(p) ==> (p == start || dset_of(entries).contains(p))
            && cost_of(entries, start, p) == torus_dist(start, p)
}

/// Every free, unclosed neighbour of a closed cell carries a step count at
/// most one above the closed cell's: cheaper-route overwrites keep entries
/// tight around the expanded region.
pub(crate) open spec fn closed_tight(
    entries: Seq<Option<(Direction, u32)>>,
    cmask: Seq<bool>,
    obst: Set<Position>,
    start: Position,
) -> bool {
    forall|p: Position, dd: Direction|
        cset_of(cmask).contains(p) && !obst.contains(#[trigger] move_by_spec(p, dd))
            && move_by_spec(p, dd) != start && !cset_of(cmask).contains(move_by_spec(p, dd))
            ==> dset_of(entries).contains(move_by_spec(p, dd)) && entry_at(
            entries,
            move_by_spec(p, dd),
        ).1 <= cost_of(entries, start, p) + 1
}

/// A straight walk whose first `j` cells are closed and whose `j`-th cell is
/// unclosed and, unless it is the start, recorded at exactly step count `j`:
/// the search's wavefront sits on an optimal route to the goal.
pub(crate) open spec fn wavefront(
    entries: Seq<Option<(Direction, u32)>>,
    cmask: Seq<bool>,
    obst: Set<Position>,
    start: Position,
    goal: Position,
    dirs: Seq<Direction>,
    j: int,
) -> bool {
    &&& straight_path(obst, start, goal, dirs)
    &&& 0 <= j <= dirs.len()
    &&& (forall|i: int|
        0 <= i < j ==> cset_of(cmask).contains(
            #[trigger] follow_path(start, dirs.subrange(0, i)),
        ))
    &&& !cset_of(cmask).contains(follow_path(start, dirs.subrange(0, j)))
    &&& (j == 0 || dset_of(entries).contains(follow_path(start, dirs.subrange(0, j)))
        && entry_at(entries, follow_path(start, dirs.subrange(0, j))).1 == j)
}

/// Some wavefront exists.
pub(crate) open spec fn wavefront_alive(
    entries: Seq<Option<(Direction, u32)>>,
    cmask: Seq<bool>,
    obst: Set<Position>,
    start: Position,
    goal: Position,
) -> bool {
    exists|dirs: Seq<Direction>, j: int|
        #[trigger] wavefront(entries, cmask, obst, start, goal, dirs, j)
}

/// As long as the goal is unclosed, a wavefront can be recovered from any
/// straight walk whose prefix is closed: walk forward over closed cells; the
/// first unclosed cell is recorded at its optimal count by the closed cells'
/// optimality and tightness.
proof fn lemma_wavefront_advance(
    entries: Seq<Option<(Direction, u32)>>,
    cmask: Seq<bool>,
    obst: Set<Position>,
    start: Position,
    goal: Position,
    dirs: Seq<Direction>,
    j: int,
)
    requires
        pos_wf(start),
        pos_wf(goal),
        torus_dist(start, goal) == manhattan_spec(start, goal),
        straight_path(obst, start, goal, dirs),
        0 <= j <= dirs.len(),
        forall|i: int|
            0 <= i < j ==> cset_of(cmask).contains(
                #[trigger] follow_path(start, dirs.subrange(0, i)),
            ),
        !cset_of(cmask).contains(goal),
        closed_optimal(entries, cmask, start),
        closed_tight(entries, cmask, obst, start),
        entries_dist_ok(entries, start),
        !dset_of(entries).contains(start),
    ensures
        wavefront_alive(entries, cmask, obst, start, goal),
    decreases dirs.len() - j,
{
    let w = follow_path(start, dirs.subrange(0, j));
    if !cset_of(cmask).contains(w) {
        if j > 0 {
            let prev = follow_path(start, dirs.subrange(0, j - 1));
            assert(cset_of(cmask).contains(prev));
            lemma_follow_subrange_step(start, dirs, j - 1);
            assert(w == move_by_spec(prev, dirs[j - 1]));
            lemma_path_ok_prefix(obst, start, dirs, j);
            assert(!obst.contains(w));
            lemma_straight_prefix(obst, start, goal, dirs, j);
            lemma_straight_prefix(obst, start, goal, dirs, j - 1);
            lemma_torus_dist_le_manhattan(start, start);
            assert(w != start);
            assert(dset_of(entries).contains(w) && entry_at(entries, w).1 <= cost_of(
                entries,
                start,
                prev,
            ) + 1);
            assert(cost_of(entries, start, prev) == j - 1);
            assert(entry_at(entries, w).1 >= torus_dist(start, w));
            assert(entry_at(entries, w).1 == j);
        }
        assert(wavefront(entries, cmask, obst, start, goal, dirs, j));
    } else {
        if j == dirs.len() {
            assert(dirs.subrange(0, dirs.len() as int) =~= dirs);
            assert(w == goal);
            assert(false);
        }
        lemma_wavefront_advance(entries, cmask, obst, start, goal, dirs, j + 1);
    }
}

/// While a wavefront is alive, the f-minimal frontier node is popped at
/// exactly its toroidal distance from the start: no node's estimate can
/// undercut the triangle inequality, and the wavefront node caps the
/// minimum at the instance's Manhattan total.
proof fn lemma_pop_optimal(
    o_pre: Seq<Node>,
    bi: int,
    entries: Seq<Option<(Direction, u32)>>,
    cmask: Seq<bool>,
    obst: Set<Position>,
    start: Position,
    goal: Position,
)
    requires
        pos_wf(start),
        pos_wf(goal),
        torus_dist(start, goal) == manhattan_spec(start, goal),
        0 <= bi < o_pre.len(),
        forall|k: int|
            0 <= k < o_pre.len() ==> o_pre[bi].g_cost + o_pre[bi].h_cost <= (
            #[trigger] o_pre[k]).g_cost + o_pre[k].h_cost,
        open_ok(o_pre, entries, cmask, start),
        open_h_ok(o_pre, goal),
        frontier_covers(o_pre, entries, cmask, start),
        entries_dist_ok(entries, start),
        !dset_of(entries).contains(start),
        wavefront_alive(entries, cmask, obst, start, goal),
    ensures
        o_pre[bi].g_cost == torus_dist(start, o_pre[bi].position),
        o_pre[bi].g_cost + o_pre[bi].h_cost == manhattan_spec(start, goal),
{
    let c_total = manhattan_spec(start, goal);
    let (wdirs, wj): (Seq<Direction>, int) = choose|wdirs: Seq<Direction>, wj: int|
        wavefront(entries, cmask, obst, start, goal, wdirs, wj);
    let w = follow_path(start, wdirs.subrange(0, wj));
    lemma_straight_prefix(obst, start, goal, wdirs, wj);
    if wj == 0 {
        assert(wdirs.subrange(0, 0) =~= Seq::<Direction>::empty());
        assert(w == start);
    }
    assert(dset_of(entries).contains(w) || w == start);
    assert(!cset_of(cmask).contains(w));
    let k = choose|k: int| 0 <= k < o_pre.len() && (#[trigger] o_pre[k].position) == w;
    assert(node_ok(o_pre[k], entries, cmask, start));
    assert(o_pre[k].g_cost == wj) by {
        if o_pre[k].position == start && o_pre[k].g_cost == 0 {
            lemma_torus_dist_le_manhattan(start, start);
            assert(torus_dist(start, w) == wj);
        }
    }
    assert(o_pre[k].h_cost == manhattan_spec(w, goal));
    assert(o_pre[k].g_cost + o_pre[k].h_cost == c_total);
    assert(o_pre[bi].g_cost + o_pre[bi].h_cost <= c_total);
    let cur = o_pre[bi];
    assert(node_ok(cur, entries, cmask, start));
    assert(cur.g_cost >= torus_dist(start, cur.position)) by {
        if cur.position == start && cur.g_cost == 0 {
            lemma_torus_dist_le_manhattan(start, start);
        } else {
            assert(dset_of(entries).contains(cur.position));
        }
    }
    assert(cur.h_cost == manhattan_spec(cur.position, goal));
    lemma_torus_dist_le_manhattan(cur.position, goal);
    lemma_torus_triangle(start, cur.position, goal);
}

/// After closing an optimally-popped cell and examining its four neighbours,
/// the closed region's optimality and tightness and a live wavefront are all
/// restored.
#[verifier::rlimit(100)]
proof fn lemma_round_optimal(
    e_a: Seq<Option<(Direction, u32)>>,
    e_b: Seq<Option<(Direction, u32)>>,
    e_c: Seq<Option<(Direction, u32)>>,
    e_d: Seq<Option<(Direction, u32)>>,
    e_e: Seq<Option<(Direction, u32)>>,
    cm0: Seq<bool>,
    cm1: Seq<bool>,
    obst: Set<Position>,
    start: Position,
    goal: Position,
    cur_pos: Position,
    cur_g: u32,
)
    requires
        pos_wf(start),
        pos_wf(goal),
        pos_wf(cur_pos),
        torus_dist(start, goal) == manhattan_spec(start, goal),
        cur_g == torus_dist(start, cur_pos),
        cur_pos == start && cur_g == 0 || dset_of(e_a).contains(cur_pos) && entry_at(
            e_a,
            cur_pos,
        ).1 == cur_g,
        cset_of(cm1) == cset_of(cm0).insert(cur_pos),
        !cset_of(cm1).contains(goal),
        closed_optimal(e_a, cm0, start),
        closed_tight(e_a, cm0, obst, start),
        wavefront_alive(e_a, cm0, obst, start, goal),
        forall|p: Position|
            #[trigger] dset_of(e_a).contains(p) ==> dset_of(e_b).contains(p) && entry_at(
                e_b,
                p,
            ).1 <= entry_at(e_a, p).1,
        forall|p: Position|
            #[trigger] dset_of(e_b).contains(p) ==> dset_of(e_c).contains(p) && entry_at(
                e_c,
                p,
            ).1 <= entry_at(e_b, p).1,
        forall|p: Position|
            #[trigger] dset_of(e_c).contains(p) ==> dset_of(e_d).contains(p) && entry_at(
                e_d,
                p,
            ).1 <= entry_at(e_c, p).1,
        forall|p: Position|
            #[trigger] dset_of(e_d).contains(p) ==> dset_of(e_e).contains(p) && entry_at(
                e_e,
                p,
            ).1 <= entry_at(e_d, p).1,
        forall|p: Position|
            #[trigger] dset_of(e_a).contains(p) && cset_of(cm1).contains(p) ==> entry_at(e_b, p)
                == entry_at(e_a, p),
        forall|p: Position|
            #[trigger] dset_of(e_b).contains(p) && cset_of(cm1).contains(p) ==> entry_at(e_c, p)
                == entry_at(e_b, p),
        forall|p: Position|
            #[trigger] dset_of(e_c).contains(p) && cset_of(cm1).contains(p) ==> entry_at(e_d, p)
                == entry_at(e_c, p),
        forall|p: Position|
            #[trigger] dset_of(e_d).contains(p) && cset_of(cm1).contains(p) ==> entry_at(e_e, p)
                == entry_at(e_d, p),
        (!obst.contains(move_by_spec(cur_pos, Direction::Up)) && move_by_spec(
            cur_pos,
            Direction::Up,
        ) != start && !cset_of(cm1).contains(move_by_spec(cur_pos, Direction::Up))) ==> dset_of(
            e_b,
        ).contains(move_by_spec(cur_pos, Direction::Up)) && entry_at(
            e_b,
            move_by_spec(cur_pos, Direction::Up),
        ).1 <= cur_g + 1,
        (!obst.contains(move_by_spec(cur_pos, Direction::Down)) && move_by_spec(
            cur_pos,
            Direction::Down,
        ) != start && !cset_of(cm1).contains(move_by_spec(cur_pos, Direction::Down))) ==> dset_of(
            e_c,
        ).contains(move_by_spec(cur_pos, Direction::Down)) && entry_at(
            e_c,
            move_by_spec(cur_pos, Direction::Down),
        ).1 <= cur_g + 1,
        (!obst.contains(move_by_spec(cur_pos, Direction::Left)) && move_by_spec(
            cur_pos,
            Direction::Left,
        ) != start && !cset_of(cm1).contains(move_by_spec(cur_pos, Direction::Left))) ==> dset_of(
            e_d,
        ).contains(move_by_spec(cur_pos, Direction::Left)) && entry_at(
            e_d,
            move_by_spec(cur_pos, Direction::Left),
        ).1 <= cur_g + 1,
        (!obst.contains(move_by_spec(cur_pos, Direction::Right)) && move_by_spec(
            cur_pos,
            Direction::Right,
        ) != start && !cset_of(cm1).contains(move_by_spec(cur_pos, Direction::Right))) ==> dset_of(
            e_e,
        ).contains(move_by_spec(cur_pos, Direction::Right)) && entry_at(
            e_e,
            move_by_spec(cur_pos, Direction::Right),
        ).1 <= cur_g + 1,
        entries_dist_ok(e_e, start),
        !dset_of(e_e).contains(start),
    ensures
        closed_optimal(e_e, cm1, start),
        closed_tight(e_e, cm1, obst, start),
        wavefront_alive(e_e, cm1, obst, start, goal),
{
    lemma_torus_dist_le_manhattan(start, start);
    assert forall|p: Position| #[trigger] cset_of(cm1).contains(p) implies (p == start || dset_of(
        e_e,
    ).contains(p)) && cost_of(e_e, start, p) == torus_dist(start, p) by {
        if p != start {
            if p == cur_pos {
                assert(dset_of(e_a).contains(p) && entry_at(e_a, p).1 == cur_g);
            } else {
                assert(cset_of(cm0).contains(p));
                assert(dset_of(e_a).contains(p));
            }
            assert(entry_at(e_b, p) == entry_at(e_a, p));
            assert(entry_at(e_c, p) == entry_at(e_b, p));
            assert(entry_at(e_d, p) == entry_at(e_c, p));
            assert(entry_at(e_e, p) == entry_at(e_d, p));
        } else {
            if p != cur_pos {
                assert(cset_of(cm0).contains(p));
            }
        }
    }
    assert forall|p: Position, dd: Direction|
        cset_of(cm1).contains(p) && !obst.contains(#[trigger] move_by_spec(p, dd))
            && move_by_spec(p, dd) != start && !cset_of(cm1).contains(
            move_by_spec(p, dd),
        ) implies dset_of(e_e).contains(move_by_spec(p, dd)) && entry_at(
        e_e,
        move_by_spec(p, dd),
    ).1 <= cost_of(e_e, start, p) + 1 by {
        let m = move_by_spec(p, dd);
        if p == cur_pos {
            match dd {
                Direction::Up => {
                    assert(dset_of(e_b).contains(m) && entry_at(e_b, m).1 <= cur_g + 1);
                    assert(dset_of(e_c).contains(m) && entry_at(e_c, m).1 <= entry_at(e_b, m).1);
                    assert(dset_of(e_d).contains(m) && entry_at(e_d, m).1 <= entry_at(e_c, m).1);
                    assert(dset_of(e_e).contains(m) && entry_at(e_e, m).1 <= entry_at(e_d, m).1);
                },
                Direction::Down => {
                    assert(dset_of(e_c).contains(m) && entry_at(e_c, m).1 <= cur_g + 1);
                    assert(dset_of(e_d).contains(m) && entry_at(e_d, m).1 <= entry_at(e_c, m).1);
                    assert(dset_of(e_e).contains(m) && entry_at(e_e, m).1 <= entry_at(e_d, m).1);
                },
                Direction::Left => {
                    assert(dset_of(e_d).contains(m) && entry_at(e_d, m).1 <= cur_g + 1);
                    assert(dset_of(e_e).contains(m) && entry_at(e_e, m).1 <= entry_at(e_d, m).1);
                },
                Direction::Right => {
                    assert(dset_of(e_e).contains(m) && entry_at(e_e, m).1 <= cur_g + 1);
                },
            }
            assert(entry_at(e_e, m).1 <= cur_g + 1);
            assert(cost_of(e_e, start, p) == cur_g) by {
                if p != start {
                    assert(dset_of(e_a).contains(p) && entry_at(e_a, p).1 == cur_g);
                    assert(entry_at(e_b, p) == entry_at(e_a, p));
                    assert(entry_at(e_c, p) == entry_at(e_b, p));
                    assert(entry_at(e_d, p) == entry_at(e_c, p));
                    assert(entry_at(e_e, p) == entry_at(e_d, p));
                }
            }
        } else {
            assert(cset_of(cm0).contains(p));
            assert(!cset_of(cm0).contains(m));
            assert(dset_of(e_a).contains(m) && entry_at(e_a, m).1 <= cost_of(e_a, start, p) + 1);
            assert(dset_of(e_b).contains(m) && entry_at(e_b, m).1 <= entry_at(e_a, m).1);
            assert(dset_of(e_c).contains(m) && entry_at(e_c, m).1 <= entry_at(e_b, m).1);
            assert(dset_of(e_d).contains(m) && entry_at(e_d, m).1 <= entry_at(e_c, m).1);
            assert(dset_of(e_e).contains(m) && entry_at(e_e, m).1 <= entry_at(e_d, m).1);
            assert(cost_of(e_e, start, p) == cost_of(e_a, start, p)) by {
                if p != start {
                    assert(dset_of(e_a).contains(p));
                    assert(entry_at(e_b, p) == entry_at(e_a, p));
                    assert(entry_at(e_c, p) == entry_at(e_b, p));
                    assert(entry_at(e_d, p) == entry_at(e_c, p));
                    assert(entry_at(e_e, p) == entry_at(e_d, p));
                }
            }
        }
    }
    let (wdirs, wj): (Seq<Direction>, int) = choose|wdirs: Seq<Direction>, wj: int|
        wavefront(e_a, cm0, obst, start, goal, wdirs, wj);
    assert forall|i: int| 0 <= i < wj implies cset_of(cm1).contains(
        #[trigger] follow_path(start, wdirs.subrange(0, i)),
    ) by {
        assert(cset_of(cm0).contains(follow_path(start, wdirs.subrange(0, i))));
        assert(cset_of(cm0).insert(cur_pos).contains(follow_path(start, wdirs.subrange(0, i))));
    }
    lemma_wavefront_advance(e_e, cm1, obst, start, goal, wdirs, wj);
}

/// An all-`None` predecessor map.
fn none_entries() -> (m: Vec<Option<(Direction, u32)>>)
    ensures
        m@.len() == grid_cells(),
        forall|i: int| 0 <= i < grid_cells() ==> (#[trigger] m@[i]).is_none(),
{
    proof {
        assert((GRID_WIDTH as usize) * (GRID_HEIGHT as usize) == 40usize * 30);
    }
    let n: usize = (GRID_WIDTH as usize) * (GRID_HEIGHT as usize);
    let mut m: Vec<Option<(Direction, u32)>> = Vec::new();
    while m.len() < n
        invariant
            m@.len() <= n,
            n == grid_cells(),
            forall|i: int| 0 <= i < m@.len() ==> (#[trigger] m@[i]).is_none(),
        decreases n - m@.len(),
    {
        m.push(Option::None);
    }
    m
}

/// Index of a frontier node with the smallest `f` cost; ties keep the
/// earliest such node, so the tie-break follows insertion order.
fn min_f_index(open: &Vec<Node>) -> (r: usize)
    requires
        open@.len() > 0,
        forall|k: int|
            0 <= k < open@.len() ==> (#[trigger] open@[k]).g_cost + open@[k].h_cost <= u32::MAX,
    ensures
        r < open@.len(),
        forall|k: int|
            0 <= k < open@.len() ==> open@[r as int].g_cost + open@[r as int].h_cost
                <= (#[trigger] open@[k]).g_cost + open@[k].h_cost,
{
    let mut best: usize = 0;
    let mut j: usize = 1;
    while j < open.len()
        invariant
            best < j <= open@.len(),
            forall|k: int|
                0 <= k < open@.len() ==> (#[trigger] open@[k]).g_cost + open@[k].h_cost
                    <= u32::MAX,
            forall|k: int|
                0 <= k < j ==> open@[best as int].g_cost + open@[best as int].h_cost
                    <= (#[trigger] open@[k]).g_cost + open@[k].h_cost,
        decreases open@.len() - j,
    {
        if open[j].f_cost() < open[best].f_cost() {
            best = j;
        }
        j += 1;
    }
    best
}

/// Writing a fresh predecessor entry keeps the predecessor map consistent:
/// the new cell joins the discovered set, every older entry is untouched, and
/// the new entry's back-link lands on the cell just expanded.
proof fn lemma_entries_update(
    e0: Seq<Option<(Direction, u32)>>,
    e1: Seq<Option<(Direction, u32)>>,
    npos: Position,
    d: Direction,
    g: u32,
    obst: Set<Position>,
    start: Position,
    cur_pos: Position,
    cur_g: u32,
)
    requires
        e0.len() == grid_cells(),
        pos_wf(npos),
        pos_wf(start),
        pos_wf(cur_pos),
        e1 == e0.update(idx_spec(npos), Option::Some((d, g))),
        entries_ok(e0, obst, start),
        !dset_of(e0).contains(start),
        !dset_of(e0).contains(npos),
        npos != start,
        !obst.contains(npos),
        move_by_spec(cur_pos, d) == npos,
        g == cur_g + 1,
        cur_pos == start && cur_g == 0 || dset_of(e0).contains(cur_pos) && entry_at(
            e0,
            cur_pos,
        ).1 == cur_g,
        cur_g <= dset_of(e0).len(),
    ensures
        e1.len() == grid_cells(),
        dset_of(e1) == dset_of(e0).insert(npos),
        dset_of(e1).len() == dset_of(e0).len() + 1,
        entries_ok(e1, obst, start),
        !dset_of(e1).contains(start),
        entry_at(e1, npos) == (d, g),
        forall|p: Position|
            #[trigger] dset_of(e0).contains(p) ==> dset_of(e1).contains(p) && entry_at(e1, p)
                == entry_at(e0, p),
{
    broadcast use vstd::set::group_set_axioms;

    lemma_idx_bijective(npos);
    assert(dset_of(e1) =~= dset_of(e0).insert(npos)) by {
        assert forall|p: Position|
            dset_of(e1).contains(p) == dset_of(e0).insert(npos).contains(p) by {
            if pos_wf(p) {
                lemma_idx_bijective(p);
                if p != npos {
                    assert(e1[idx_spec(p)] == e0[idx_spec(p)]);
                }
            }
        }
    }
    lemma_all_positions_finite();
    lemma_len_subset(dset_of(e0), all_positions());
    assert(dset_of(e1).len() == dset_of(e0).len() + 1);
    assert forall|p: Position| #[trigger] dset_of(e0).contains(p) implies dset_of(e1).contains(p)
        && entry_at(e1, p) == entry_at(e0, p) by {
        lemma_idx_bijective(p);
        assert(p != npos);
        assert(e1[idx_spec(p)] == e0[idx_spec(p)]);
    }
    assert(entry_at(e1, npos) == (d, g));
    assert(entry_ok(e1, obst, start, npos)) by {
        lemma_opposite(d);
        lemma_move_by_opposite(cur_pos, d);
        assert(move_by_spec(npos, opposite_spec(d)) == cur_pos);
    }
    assert forall|p: Position| dset_of(e1).contains(p) implies entry_ok(e1, obst, start, p) by {
        if p != npos {
            assert(dset_of(e0).contains(p));
            assert(entry_ok(e0, obst, start, p));
            let (dp, gp) = entry_at(e0, p);
            let predp = move_by_spec(p, opposite_spec(dp));
            if predp == npos {
                // an old entry cannot point back at a cell that had no entry
                // and is not the start
                assert(predp == start && gp == 1);
                assert(false);
            }
        }
    }
}

/// Pushing the fresh neighbour onto the frontier keeps the frontier
/// consistent and covering: older nodes are untouched and the new node is
/// the witness for the newly discovered cell.
proof fn lemma_open_push(
    o0: Seq<Node>,
    o1: Seq<Node>,
    e0: Seq<Option<(Direction, u32)>>,
    e1: Seq<Option<(Direction, u32)>>,
    cmask: Seq<bool>,
    start: Position,
    n: Node,
)
    requires
        o1 == o0.push(n),
        open_ok(o0, e0, cmask, start),
        frontier_covers(o0, e0, cmask, start),
        node_ok(n, e1, cmask, start),
        n.position != start,
        !dset_of(e0).contains(n.position),
        dset_of(e1) == dset_of(e0).insert(n.position),
        dset_of(e1).len() == dset_of(e0).len() + 1,
        forall|p: Position|
            #[trigger] dset_of(e0).contains(p) ==> dset_of(e1).contains(p) && entry_at(e1, p)
                == entry_at(e0, p),
    ensures
        open_ok(o1, e1, cmask, start),
        frontier_covers(o1, e1, cmask, start),
{
    broadcast use vstd::set::group_set_axioms;

    assert forall|k: int| 0 <= k < o1.len() implies node_ok(#[trigger] o1[k], e1, cmask, start) by {
        if k < o0.len() {
            assert(o1[k] == o0[k]);
            assert(node_ok(o0[k], e0, cmask, start));
            if o0[k].position != start || o0[k].g_cost != 0 {
                assert(dset_of(e0).contains(o0[k].position));
            }
        } else {
            assert(o1[k] == n);
        }
    }
    assert forall|k1: int, k2: int| 0 <= k1 < k2 < o1.len() implies o1[k1].position
        != o1[k2].position by {
        if k2 == o1.len() - 1 {
            assert(o1[k1] == o0[k1]);
            assert(node_ok(o0[k1], e0, cmask, start));
            if o0[k1].position != start || o0[k1].g_cost != 0 {
                assert(dset_of(e0).contains(o0[k1].position));
            }
        }
    }
    assert forall|p: Position|
        (#[trigger] dset_of(e1).contains(p) || p == start) && !cset_of(cmask).contains(
            p,
        ) implies exists|k: int| 0 <= k < o1.len() && (#[trigger] o1[k].position) == p by {
        if p == n.position {
            assert(o1[o1.len() - 1].position == p);
        } else {
            if p == start {
                assert(dset_of(e0).contains(p) || p == start);
            } else {
                assert(dset_of(e1).contains(p));
                assert(dset_of(e0).insert(n.position).contains(p));
                assert(dset_of(e0).contains(p));
            }
            assert(exists|k: int| 0 <= k < o0.len() && (#[trigger] o0[k].position) == p);
            let k = choose|k: int| 0 <= k < o0.len() && (#[trigger] o0[k].position) == p;
            assert(o1[k].position == p);
        }
    }
}

/// Adopting a strictly cheaper route to an already discovered cell keeps the
/// predecessor map consistent: the discovered set is unchanged, the cell's
/// step count drops, and every other entry is untouched, so back-links that
/// point at the cell still point at a strictly smaller step count.
proof fn lemma_entries_decrease(
    e0: Seq<Option<(Direction, u32)>>,
    e1: Seq<Option<(Direction, u32)>>,
    npos: Position,
    d: Direction,
    g: u32,
    obst: Set<Position>,
    start: Position,
    cur_pos: Position,
    cur_g: u32,
)
    requires
        e0.len() == grid_cells(),
        pos_wf(npos),
        pos_wf(start),
        pos_wf(cur_pos),
        e1 == e0.update(idx_spec(npos), Option::Some((d, g))),
        entries_ok(e0, obst, start),
        !dset_of(e0).contains(start),
        dset_of(e0).contains(npos),
        g < entry_at(e0, npos).1,
        npos != start,
        !obst.contains(npos),
        move_by_spec(cur_pos, d) == npos,
        cur_pos != npos,
        g == cur_g + 1,
        cur_pos == start && cur_g == 0 || dset_of(e0).contains(cur_pos) && entry_at(
            e0,
            cur_pos,
        ).1 == cur_g,
    ensures
        e1.len() == grid_cells(),
        dset_of(e1) == dset_of(e0),
        entries_ok(e1, obst, start),
        !dset_of(e1).contains(start),
        entry_at(e1, npos) == (d, g),
        forall|p: Position|
            #[trigger] dset_of(e0).contains(p) ==> dset_of(e1).contains(p) && entry_at(
                e1,
                p,
            ).1 <= entry_at(e0, p).1,
        forall|p: Position|
            #[trigger] dset_of(e0).contains(p) && p != npos ==> entry_at(e1, p) == entry_at(e0, p),
{
    lemma_idx_bijective(npos);
    assert(dset_of(e1) =~= dset_of(e0)) by {
        assert forall|p: Position| dset_of(e1).contains(p) == dset_of(e0).contains(p) by {
            if pos_wf(p) {
                lemma_idx_bijective(p);
                if p != npos {
                    assert(e1[idx_spec(p)] == e0[idx_spec(p)]);
                }
            }
        }
    }
    assert forall|p: Position| #[trigger] dset_of(e0).contains(p) && p != npos implies entry_at(
        e1,
        p,
    ) == entry_at(e0, p) by {
        lemma_idx_bijective(p);
        assert(e1[idx_spec(p)] == e0[idx_spec(p)]);
    }
    assert(entry_at(e1, npos) == (d, g));
    assert(entry_ok(e1, obst, start, npos)) by {
        lemma_opposite(d);
        lemma_move_by_opposite(cur_pos, d);
        assert(move_by_spec(npos, opposite_spec(d)) == cur_pos);
        assert(entry_ok(e0, obst, start, npos));
        if cur_pos != start {
            assert(entry_at(e1, cur_pos) == entry_at(e0, cur_pos));
        }
    }
    assert forall|p: Position| dset_of(e1).contains(p) implies entry_ok(e1, obst, start, p) by {
        if p != npos {
            assert(dset_of(e0).contains(p));
            assert(entry_ok(e0, obst, start, p));
            let (dp, gp) = entry_at(e0, p);
            let predp = move_by_spec(p, opposite_spec(dp));
            if predp == npos {
                // the cheaper step count keeps the back-link strictly smaller
                assert(entry_at(e0, npos).1 < gp);
            } else {
                if dset_of(e0).contains(predp) {
                    assert(entry_at(e1, predp) == entry_at(e0, predp));
                }
            }
        }
    }
}

/// Re-synchronising one frontier node with its cell's cheaper entry keeps the
/// frontier consistent and covering: positions are unchanged and only that
/// node's step count moves, to the entry's new value.
proof fn lemma_open_resync(
    o0: Seq<Node>,
    o1: Seq<Node>,
    e0: Seq<Option<(Direction, u32)>>,
    e1: Seq<Option<(Direction, u32)>>,
    cmask: Seq<bool>,
    start: Position,
    j: int,
    n: Node,
)
    requires
        0 <= j < o0.len(),
        o1 == o0.update(j, n),
        n.position == o0[j].position,
        open_ok(o0, e0, cmask, start),
        frontier_covers(o0, e0, cmask, start),
        node_ok(n, e1, cmask, start),
        dset_of(e1) == dset_of(e0),
        forall|p: Position|
            #[trigger] dset_of(e0).contains(p) && p != n.position ==> entry_at(e1, p) == entry_at(
                e0,
                p,
            ),
    ensures
        open_ok(o1, e1, cmask, start),
        frontier_covers(o1, e1, cmask, start),
{
    assert forall|k: int| 0 <= k < o1.len() implies node_ok(#[trigger] o1[k], e1, cmask, start) by {
        if k != j {
            assert(o1[k] == o0[k]);
            assert(node_ok(o0[k], e0, cmask, start));
            assert(o0[k].position != o0[j].position);
            if o0[k].position != start || o0[k].g_cost != 0 {
                assert(dset_of(e0).contains(o0[k].position));
                assert(entry_at(e1, o0[k].position) == entry_at(e0, o0[k].position));
            }
        }
    }
    assert forall|k1: int, k2: int| 0 <= k1 < k2 < o1.len() implies o1[k1].position
        != o1[k2].position by {
        assert(o1[k1].position == o0[k1].position);
        assert(o1[k2].position == o0[k2].position);
    }
    assert forall|p: Position|
        (dset_of(e1).contains(p) || p == start) && !cset_of(cmask).contains(p) implies exists|k: int|
        0 <= k < o1.len() && (#[trigger] o1[k].position) == p by {
        assert(dset_of(e0).contains(p) || p == start);
        let k = choose|k: int| 0 <= k < o0.len() && (#[trigger] o0[k].position) == p;
        assert(o1[k].position == p);
    }
}

/// One full expansion round preserves the closure facts: after the four
/// neighbours of the just-closed cell are examined, every closed cell still
/// has its free neighbours discovered, and closed cells stay discovered.
proof fn lemma_round_closure(
    e_a: Seq<Option<(Direction, u32)>>,
    e_b: Seq<Option<(Direction, u32)>>,
    e_c: Seq<Option<(Direction, u32)>>,
    e_d: Seq<Option<(Direction, u32)>>,
    e_e: Seq<Option<(Direction, u32)>>,
    cm0: Seq<bool>,
    cm1: Seq<bool>,
    obst: Set<Position>,
    start: Position,
    cur: Position,
)
    requires
        forall|p: Position| #[trigger] dset_of(e_a).contains(p) ==> dset_of(e_b).contains(p),
        forall|p: Position| #[trigger] dset_of(e_b).contains(p) ==> dset_of(e_c).contains(p),
        forall|p: Position| #[trigger] dset_of(e_c).contains(p) ==> dset_of(e_d).contains(p),
        forall|p: Position| #[trigger] dset_of(e_d).contains(p) ==> dset_of(e_e).contains(p),
        !obst.contains(move_by_spec(cur, Direction::Up)) ==> dset_of(e_b).contains(
            move_by_spec(cur, Direction::Up),
        ) || move_by_spec(cur, Direction::Up) == start || cset_of(cm1).contains(
            move_by_spec(cur, Direction::Up),
        ),
        !obst.contains(move_by_spec(cur, Direction::Down)) ==> dset_of(e_c).contains(
            move_by_spec(cur, Direction::Down),
        ) || move_by_spec(cur, Direction::Down) == start || cset_of(cm1).contains(
            move_by_spec(cur, Direction::Down),
        ),
        !obst.contains(move_by_spec(cur, Direction::Left)) ==> dset_of(e_d).contains(
            move_by_spec(cur, Direction::Left),
        ) || move_by_spec(cur, Direction::Left) == start || cset_of(cm1).contains(
            move_by_spec(cur, Direction::Left),
        ),
        !obst.contains(move_by_spec(cur, Direction::Right)) ==> dset_of(e_e).contains(
            move_by_spec(cur, Direction::Right),
        ) || move_by_spec(cur, Direction::Right) == start || cset_of(cm1).contains(
            move_by_spec(cur, Direction::Right),
        ),
        closed_expanded(e_a, cm0, obst, start),
        cset_of(cm1) == cset_of(cm0).insert(cur),
        forall|p: Position|
            #[trigger] cset_of(cm0).contains(p) ==> dset_of(e_a).contains(p) || p == start,
        cur == start || dset_of(e_a).contains(cur),
    ensures
        closed_expanded(e_e, cm1, obst, start),
        forall|p: Position|
            #[trigger] cset_of(cm1).contains(p) ==> dset_of(e_e).contains(p) || p == start,
{
    assert forall|p: Position, dd: Direction|
        cset_of(cm1).contains(p) && !obst.contains(#[trigger] move_by_spec(p, dd)) implies dset_of(
        e_e,
    ).contains(move_by_spec(p, dd)) || move_by_spec(p, dd) == start by {
        let m = move_by_spec(p, dd);
        if p == cur {
            match dd {
                Direction::Up => {
                    if cset_of(cm1).contains(m) {
                        assert(cset_of(cm0).contains(m) || m == cur);
                        if m != start {
                            assert(dset_of(e_a).contains(m) || m == cur);
                            assert(dset_of(e_e).contains(m) || m == cur);
                            assert(m != cur || dset_of(e_a).contains(cur) || cur == start);
                        }
                    }
                    if dset_of(e_b).contains(m) {
                        assert(dset_of(e_c).contains(m));
                        assert(dset_of(e_d).contains(m));
                    }
                },
                Direction::Down => {
                    if cset_of(cm1).contains(m) {
                        assert(cset_of(cm0).contains(m) || m == cur);
                    }
                    if dset_of(e_c).contains(m) {
                        assert(dset_of(e_d).contains(m));
                    }
                },
                Direction::Left => {
                    if cset_of(cm1).contains(m) {
                        assert(cset_of(cm0).contains(m) || m == cur);
                    }
                    if dset_of(e_d).contains(m) {
                        assert(dset_of(e_e).contains(m));
                    }
                },
                Direction::Right => {
                    if cset_of(cm1).contains(m) {
                        assert(cset_of(cm0).contains(m) || m == cur);
                    }
                },
            }
            if cset_of(cm0).contains(m) && m != start {
                assert(dset_of(e_a).contains(m));
                assert(dset_of(e_b).contains(m));
                assert(dset_of(e_c).contains(m));
                assert(dset_of(e_d).contains(m));
            }
            if m == cur && m != start {
                assert(dset_of(e_a).contains(cur));
                assert(dset_of(e_b).contains(m));
                assert(dset_of(e_c).contains(m));
                assert(dset_of(e_d).contains(m));
            }
        } else {
            assert(cset_of(cm0).contains(p));
            assert(dset_of(e_a).contains(m) || m == start);
            if dset_of(e_a).contains(m) {
                assert(dset_of(e_b).contains(m));
                assert(dset_of(e_c).contains(m));
                assert(dset_of(e_d).contains(m));
            }
        }
    }
    assert forall|p: Position| #[trigger] cset_of(cm1).contains(p) implies dset_of(e_e).contains(p)
        || p == start by {
        if p != cur {
            assert(cset_of(cm0).contains(p));
            if dset_of(e_a).contains(p) {
                assert(dset_of(e_b).contains(p));
                assert(dset_of(e_c).contains(p));
                assert(dset_of(e_d).contains(p));
            }
        } else {
            if dset_of(e_a).contains(p) {
                assert(dset_of(e_b).contains(p));
                assert(dset_of(e_c).contains(p));
                assert(dset_of(e_d).contains(p));
            }
        }
    }
}

/// Examine the neighbour of the just-closed cell `cur_pos` in direction `d`.
/// A free, unclosed, undiscovered neighbour (other than the start cell, which
/// never receives a predecessor entry) is recorded in the predecessor map
/// with step count `cur_g + 1` and pushed onto the frontier; a neighbour
/// already discovered has its entry overwritten only when this route reaches
/// it via a strictly cheaper step count, with its frontier node resynced.
#[verifier::rlimit(100)]
fn expand_neighbor(
    cur_pos: Position,
    cur_g: u32,
    d: Direction,
    goal: Position,
    omask: &Vec<bool>,
    cmask: &Vec<bool>,
    entries: &mut Vec<Option<(Direction, u32)>>,
    open: &mut Vec<Node>,
    start: Position,
    Ghost(obst): Ghost<Set<Position>>,
)
    requires
        pos_wf(cur_pos),
        pos_wf(start),
        pos_wf(goal),
        omask@.len() == grid_cells(),
        forall|p: Position| pos_wf(p) ==> omask@[idx_spec(p)] == obst.contains(p),
        cmask@.len() == grid_cells(),
        old(entries)@.len() == grid_cells(),
        entries_ok(old(entries)@, obst, start),
        !dset_of(old(entries)@).contains(start),
        cur_pos == start && cur_g == 0 || dset_of(old(entries)@).contains(cur_pos) && entry_at(
            old(entries)@,
            cur_pos,
        ).1 == cur_g,
        cur_g <= dset_of(old(entries)@).len(),
        open_ok(old(open)@, old(entries)@, cmask@, start),
        frontier_covers(old(open)@, old(entries)@, cmask@, start),
        entries_dist_ok(old(entries)@, start),
        open_h_ok(old(open)@, goal),
    ensures
        final(entries)@.len() == grid_cells(),
        entries_ok(final(entries)@, obst, start),
        !dset_of(final(entries)@).contains(start),
        entries_dist_ok(final(entries)@, start),
        open_h_ok(final(open)@, goal),
        forall|p: Position|
            #[trigger] dset_of(old(entries)@).contains(p) ==> dset_of(final(entries)@).contains(p)
                && entry_at(final(entries)@, p).1 <= entry_at(old(entries)@, p).1,
        forall|p: Position|
            #[trigger] dset_of(old(entries)@).contains(p) && p != move_by_spec(cur_pos, d)
                ==> entry_at(final(entries)@, p) == entry_at(old(entries)@, p),
        forall|p: Position|
            #[trigger] dset_of(old(entries)@).contains(p) && cset_of(cmask@).contains(p)
                ==> entry_at(final(entries)@, p) == entry_at(old(entries)@, p),
        (!obst.contains(move_by_spec(cur_pos, d)) && move_by_spec(cur_pos, d) != start
            && !cset_of(cmask@).contains(move_by_spec(cur_pos, d))) ==> dset_of(
            final(entries)@,
        ).contains(move_by_spec(cur_pos, d)) && entry_at(
            final(entries)@,
            move_by_spec(cur_pos, d),
        ).1 <= cur_g + 1,
        dset_of(final(entries)@).len() <= dset_of(old(entries)@).len() + 1,
        open_ok(final(open)@, final(entries)@, cmask@, start),
        frontier_covers(final(open)@, final(entries)@, cmask@, start),
        old(open)@.len() <= final(open)@.len(),
        forall|k: int|
            0 <= k < old(open)@.len() ==> (#[trigger] final(open)@[k]).position == old(
                open,
            )@[k].position,
        !obst.contains(move_by_spec(cur_pos, d)) ==> dset_of(final(entries)@).contains(
            move_by_spec(cur_pos, d),
        ) || move_by_spec(cur_pos, d) == start || cset_of(cmask@).contains(
            move_by_spec(cur_pos, d),
        ),
{
    let npos = cur_pos.move_by(d);
    let ni = cell_index(npos);
    proof {
        lemma_idx_bijective(npos);
    }
    if npos != start && !omask[ni] && !cmask[ni] {
        let is_new = entries[ni].is_none();
        if is_new {
            proof {
                assert(dset_of(entries@).subset_of(all_positions()));
                lemma_all_positions_finite();
                lemma_len_subset(dset_of(entries@), all_positions());
            }
            let g = cur_g + 1;
            let ghost e0 = entries@;
            entries.set(ni, Option::Some((d, g)));
            proof {
                lemma_entries_update(e0, entries@, npos, d, g, obst, start, cur_pos, cur_g);
                lemma_torus_dist_le_manhattan(start, start);
                lemma_step_changes_dist_by_one(cur_pos, d, start);
                lemma_torus_symmetry(cur_pos, start);
                lemma_torus_symmetry(npos, start);
                assert(cur_g >= torus_dist(start, cur_pos));
                assert(g >= torus_dist(start, npos));
                assert forall|p: Position| dset_of(entries@).contains(p) implies entry_at(
                    entries@,
                    p,
                ).1 >= torus_dist(start, p) by {
                    if p != npos {
                        assert(dset_of(e0).contains(p));
                    }
                }
            }
            let h = npos.manhattan_distance(&goal);
            let node = Node { position: npos, g_cost: g, h_cost: h, parent: Option::Some(d) };
            let ghost o0 = open@;
            let ghost gnode = node;
            open.push(node);
            proof {
                assert(node_ok(gnode, entries@, cmask@, start)) by {
                    broadcast use vstd::set::group_set_axioms;

                    assert(dset_of(entries@).contains(npos));
                }
                lemma_open_push(o0, open@, e0, entries@, cmask@, start, gnode);
                assert forall|k: int| 0 <= k < open@.len() implies (#[trigger] open@[k]).h_cost
                    == manhattan_spec(open@[k].position, goal) by {
                    if k < o0.len() {
                        assert(open@[k] == o0[k]);
                    } else {
                        assert(open@[k] == gnode);
                    }
                }
            }
        } else {
            proof {
                assert(dset_of(entries@).contains(npos));
            }
            // already discovered: adopt this route if it is strictly cheaper,
            // keeping the cell's frontier node in step with its entry
            if let Option::Some((_, g_old)) = entries[ni] {
                proof {
                    assert(dset_of(entries@).subset_of(all_positions()));
                    lemma_all_positions_finite();
                    lemma_len_subset(dset_of(entries@), all_positions());
                    assert(entry_ok(entries@, obst, start, npos));
                }
                let g_new = cur_g + 1;
                if g_new < g_old {
                    let ghost e0 = entries@;
                    entries.set(ni, Option::Some((d, g_new)));
                    proof {
                        lemma_move_changes(cur_pos, d);
                        lemma_entries_decrease(
                            e0,
                            entries@,
                            npos,
                            d,
                            g_new,
                            obst,
                            start,
                            cur_pos,
                            cur_g,
                        );
                    }
                    let ghost o0 = open@;
                    proof {
                        // the cell is discovered and unclosed, so the
                        // frontier holds a node for it
                        assert(!cset_of(cmask@).contains(npos));
                        assert(dset_of(e0).contains(npos));
                        assert(exists|k: int|
                            0 <= k < o0.len() && (#[trigger] o0[k].position) == npos);
                    }
                    let mut j: usize = 0;
                    while j < open.len()
                        invariant
                            0 <= j <= open@.len(),
                            open@ == o0,
                            forall|k: int| 0 <= k < j ==> (#[trigger] o0[k].position) != npos,
                            exists|k: int|
                                0 <= k < o0.len() && (#[trigger] o0[k].position) == npos,
                        ensures
                            j < open@.len(),
                            open@ == o0,
                            open@[j as int].position == npos,
                        decreases open@.len() - j,
                    {
                        if open[j].position == npos {
                            break ;
                        }
                        j += 1;
                    }
                    let h_kept = open[j].h_cost;
                    let node = Node {
                        position: npos,
                        g_cost: g_new,
                        h_cost: h_kept,
                        parent: Option::Some(d),
                    };
                    let ghost gnode = node;
                    open.set(j, node);
                    proof {
                        lemma_open_resync(o0, open@, e0, entries@, cmask@, start, j as int, gnode);
                        lemma_torus_dist_le_manhattan(start, start);
                        lemma_step_changes_dist_by_one(cur_pos, d, start);
                        lemma_torus_symmetry(cur_pos, start);
                        lemma_torus_symmetry(npos, start);
                        assert(cur_g >= torus_dist(start, cur_pos));
                        assert(g_new >= torus_dist(start, npos));
                        assert forall|p: Position| dset_of(entries@).contains(p) implies entry_at(
                            entries@,
                            p,
                        ).1 >= torus_dist(start, p) by {
                            if p != npos {
                                assert(dset_of(e0).contains(p));
                            }
                        }
                        assert forall|k: int|
                            0 <= k < open@.len() implies (#[trigger] open@[k]).h_cost
                            == manhattan_spec(open@[k].position, goal) by {
                            if k != j {
                                assert(open@[k] == o0[k]);
                            } else {
                                assert(open@[k as int] == gnode);
                                assert(gnode.h_cost == o0[j as int].h_cost);
                                assert(gnode.position == o0[j as int].position);
                            }
                        }
                    }
                } else {
                    proof {
                        assert(entry_at(entries@, npos).1 <= cur_g + 1);
                    }
                }
            }
        }
    } else {
        proof {
            if !obst.contains(move_by_spec(cur_pos, d)) && npos != start {
                assert(omask@[idx_spec(npos)] == obst.contains(npos));
                assert(cmask@[idx_spec(npos)]);
                assert(cset_of(cmask@).contains(npos));
            }
        }
    }
}

/// Termination measure of the walk back through the predecessor map: the
/// recorded step count of the current cell, or zero at the start cell.
pub(crate) open spec fn measure_of(entries: Seq<Option<(Direction, u32)>>, p: Position) -> int {
    if dset_of(entries).contains(p) {
        entry_at(entries, p).1 as int
    } else {
        0
    }
}

/// Rebuild the direction sequence of a found path by walking the predecessor
/// map from the goal back to the start and reversing the collected steps.
fn reconstruct(
    entries: &Vec<Option<(Direction, u32)>>,
    start: Position,
    goal: Position,
    Ghost(obst): Ghost<Set<Position>>,
) -> (path: Vec<Direction>)
    requires
        pos_wf(start),
        pos_wf(goal),
        entries@.len() == grid_cells(),
        entries_ok(entries@, obst, start),
        !dset_of(entries@).contains(start),
        dset_of(entries@).contains(goal) || goal == start,
    ensures
        path_ok(obst, start, path@),
        follow_path(start, path@) == goal,
        goal == start ==> path@.len() == 0,
        path@.len() <= measure_of(entries@, goal),
        path@.len() <= grid_cells(),
{
    let mut rev: Vec<Direction> = Vec::new();
    let mut pos = goal;
    let ghost mut suffix: Seq<Direction> = Seq::empty();
    proof {
        // entry step counts are bounded by how many cells were discovered
        assert(dset_of(entries@).subset_of(all_positions()));
        lemma_all_positions_finite();
        lemma_len_subset(dset_of(entries@), all_positions());
    }
    loop
        invariant
            pos_wf(pos),
            pos_wf(start),
            pos_wf(goal),
            entries@.len() == grid_cells(),
            entries_ok(entries@, obst, start),
            !dset_of(entries@).contains(start),
            dset_of(entries@).contains(pos) || pos == start,
            path_ok(obst, pos, suffix),
            follow_path(pos, suffix) == goal,
            rev@.len() == suffix.len(),
            forall|i: int| 0 <= i < suffix.len() ==> suffix[i] == rev@[suffix.len() - 1 - i],
            goal == start ==> pos == start && rev@.len() == 0,
            suffix.len() + measure_of(entries@, pos) <= measure_of(entries@, goal),
            suffix.len() + measure_of(entries@, pos) <= grid_cells(),
        ensures
            pos == start,
            path_ok(obst, start, suffix),
            follow_path(start, suffix) == goal,
            rev@.len() == suffix.len(),
            forall|i: int| 0 <= i < suffix.len() ==> suffix[i] == rev@[suffix.len() - 1 - i],
            goal == start ==> rev@.len() == 0,
            suffix.len() <= measure_of(entries@, goal),
            suffix.len() <= grid_cells(),
        decreases measure_of(entries@, pos),
    {
        let ci = cell_index(pos);
        let e = entries[ci];
        match e {
            Option::Some((d, _)) => {
                proof {
                    assert(dset_of(entries@).contains(pos));
                    assert(entry_ok(entries@, obst, start, pos));
                }
                rev.push(d);
                let ghost old_pos = pos;
                let ghost old_suffix = suffix;
                pos = pos.move_by(d.opposite());
                proof {
                    suffix = seq![d] + old_suffix;
                    lemma_opposite(d);
                    assert(move_by_spec(pos, d) == old_pos);
                    assert(suffix[0] == d);
                    assert(suffix.drop_first() =~= old_suffix);
                    assert(follow_path(pos, suffix) == follow_path(old_pos, old_suffix));
                    assert(path_ok(obst, pos, suffix)) by {
                        assert(!obst.contains(old_pos));
                    }
                    assert forall|i: int| 0 <= i < suffix.len() implies suffix[i] == rev@[suffix.len()
                        - 1 - i] by {
                        if i > 0 {
                            assert(suffix[i] == old_suffix[i - 1]);
                        }
                    }
                }
            },
            Option::None => {
                proof {
                    assert(!dset_of(entries@).contains(pos));
                }
                break ;
            },
        }
    }
    let mut path: Vec<Direction> = Vec::new();
    let mut i: usize = rev.len();
    while i > 0
        invariant
            i <= rev@.len(),
            path@.len() == rev@.len() - i,
            forall|k: int| 0 <= k < path@.len() ==> path@[k] == rev@[rev@.len() - 1 - k],
        decreases i,
    {
        i -= 1;
        path.push(rev[i]);
    }
    proof {
        assert(path@ =~= suffix);
    }
    path
}

/// Closing the frontier node just removed keeps every search structure
/// consistent: the closed set grows by exactly that cell, the remaining
/// frontier still covers every other unclosed discovered cell, and the goal
/// stays unclosed.
#[verifier::rlimit(50)]
proof fn lemma_close_current(
    o_pre: Seq<Node>,
    o_post: Seq<Node>,
    bi: int,
    current: Node,
    entries: Seq<Option<(Direction, u32)>>,
    cm0: Seq<bool>,
    cm1: Seq<bool>,
    obst: Set<Position>,
    start: Position,
    goal: Position,
)
    requires
        0 <= bi < o_pre.len(),
        current == o_pre[bi],
        o_post == o_pre.update(bi, o_pre.last()).drop_last(),
        cm0.len() == grid_cells(),
        cm1 == cm0.update(idx_spec(current.position), true),
        pos_wf(start),
        open_ok(o_pre, entries, cm0, start),
        frontier_covers(o_pre, entries, cm0, start),
        forall|p: Position|
            #[trigger] cset_of(cm0).contains(p) ==> dset_of(entries).contains(p) || p == start,
        cset_of(cm0).finite(),
        current.position != goal,
        !cset_of(cm0).contains(goal),
    ensures
        cm1.len() == grid_cells(),
        cset_of(cm1) == cset_of(cm0).insert(current.position),
        cset_of(cm1).finite(),
        cset_of(cm1).len() == cset_of(cm0).len() + 1,
        cset_of(cm1).len() <= grid_cells(),
        open_ok(o_post, entries, cm1, start),
        frontier_covers(o_post, entries, cm1, start),
        forall|p: Position|
            #[trigger] cset_of(cm1).contains(p) ==> dset_of(entries).contains(p) || p == start,
        !cset_of(cm1).contains(goal),
        !cset_of(cm0).contains(current.position),
        cset_of(cm1).contains(current.position),
        forall|k: int|
            0 <= k < o_post.len() ==> exists|j: int|
                0 <= j < o_pre.len() && o_pre[j] == #[trigger] o_post[k],
{
    broadcast use vstd::set::group_set_axioms;

    assert(node_ok(o_pre[bi], entries, cm0, start));
    assert(pos_wf(current.position));
    lemma_idx_bijective(current.position);
    assert(cset_of(cm1) =~= cset_of(cm0).insert(current.position)) by {
        assert forall|p: Position|
            cset_of(cm1).contains(p) == cset_of(cm0).insert(current.position).contains(p) by {
            if pos_wf(p) {
                lemma_idx_bijective(p);
                if p != current.position {
                    assert(cm1[idx_spec(p)] == cm0[idx_spec(p)]);
                }
            }
        }
    }
    assert(!cset_of(cm0).contains(current.position));
    assert(cset_of(cm1).len() == cset_of(cm0).len() + 1);
    assert(cset_of(cm1).subset_of(all_positions()));
    lemma_all_positions_finite();
    lemma_len_subset(cset_of(cm1), all_positions());
    // every remaining frontier node came from the old frontier, at an index
    // other than the removed one
    assert forall|k: int| 0 <= k < o_post.len() implies node_ok(
        #[trigger] o_post[k],
        entries,
        cm1,
        start,
    ) && (exists|j: int| 0 <= j < o_pre.len() && j != bi && o_pre[j] == o_post[k]) by {
        let j: int = if k == bi { o_pre.len() - 1 } else { k };
        assert(o_post[k] == o_pre[j]);
        assert(j != bi);
        assert(node_ok(o_pre[j], entries, cm0, start));
        assert(o_pre[j].position != o_pre[bi].position);
        assert(!cset_of(cm1).contains(o_pre[j].position));
    }
    assert forall|k1: int, k2: int| 0 <= k1 < k2 < o_post.len() implies o_post[k1].position
        != o_post[k2].position by {
        let j1: int = if k1 == bi { o_pre.len() - 1 } else { k1 };
        let j2: int = if k2 == bi { o_pre.len() - 1 } else { k2 };
        assert(o_post[k1] == o_pre[j1]);
        assert(o_post[k2] == o_pre[j2]);
        assert(j1 != j2);
    }
    assert forall|p: Position|
        (dset_of(entries).contains(p) || p == start) && !cset_of(cm1).contains(
            p,
        ) implies exists|k: int| 0 <= k < o_post.len() && (#[trigger] o_post[k].position) == p by {
        assert(!cset_of(cm0).contains(p));
        assert(p != current.position);
        let k = choose|k: int| 0 <= k < o_pre.len() && (#[trigger] o_pre[k].position) == p;
        assert(k != bi);
        if k == o_pre.len() - 1 {
            assert(bi < o_pre.len() - 1);
            assert(o_post[bi].position == p);
        } else {
            assert(o_post[k].position == p);
        }
    }
}

impl AIAgent {
    /// Best-first search for a shortest-style route from `start` to `goal`
    /// avoiding every cell of `obstacles`, over the wrapped grid. The
    /// frontier is ordered by ascending `f = g + h` with the non-wrap-aware
    /// Manhattan heuristic `h` (a documented approximation: it ignores
    /// toroidal shortcuts); ties keep the earliest frontier entry. Each cell
    /// is expanded at most once, and the predecessor map records, per cell,
    /// the direction that discovered it, overwritten only when the cell is
    /// reached via a strictly cheaper route.
    ///
    /// A returned sequence of moves leads from `start` to `goal` and never
    /// steps onto an obstacle cell; `None` is returned exactly when no walk
    /// around the obstacles connects the two cells. The length is at least
    /// the toroidal distance, and in the straight reachable case (no wrap
    /// shortcut, and some straight walk to the goal exists around the
    /// obstacles) it is exactly the Manhattan distance.
    #[verifier::rlimit(100)]
    pub fn find_path(start: Position, goal: Position, obstacles: &Vec<Position>) -> (r: Option<
        Vec<Direction>,
    >)
        requires
            pos_wf(start),
            pos_wf(goal),
            forall|i: int| 0 <= i < obstacles@.len() ==> pos_wf(#[trigger] obstacles@[i]),
        ensures
            match r {
                Option::Some(path) => path_ok(obstacles@.to_set(), start, path@) && follow_path(
                    start,
                    path@,
                ) == goal && reachable(obstacles@.to_set(), start, goal) && torus_dist(
                    start,
                    goal,
                ) <= path@.len() <= grid_cells() && (start == goal ==> path@.len() == 0) && (
                straight_instance(obstacles@.to_set(), start, goal) ==> path@.len()
                    == manhattan_spec(start, goal)),
                Option::None => !reachable(obstacles@.to_set(), start, goal) && start != goal
                    && !straight_instance(obstacles@.to_set(), start, goal),
            },
    {
        let ghost obst = obstacles@.to_set();
        let omask = make_mask(obstacles);
        let mut cmask = false_mask();
        let mut entries = none_entries();
        let mut open: Vec<Node> = Vec::new();
        let h0 = start.manhattan_distance(&goal);
        open.push(Node { position: start, g_cost: 0, h_cost: h0, parent: Option::None });
        proof {
            broadcast use vstd::set::group_set_axioms;

            assert(cset_of(cmask@) =~= Set::<Position>::empty()) by {
                assert forall|p: Position| !cset_of(cmask@).contains(p) by {
                    if pos_wf(p) {
                        lemma_idx_bijective(p);
                    }
                }
            }
            assert(dset_of(entries@) =~= Set::<Position>::empty()) by {
                assert forall|p: Position| !dset_of(entries@).contains(p) by {
                    if pos_wf(p) {
                        lemma_idx_bijective(p);
                    }
                }
            }
            assert(node_ok(open@[0], entries@, cmask@, start));
            assert(open_ok(open@, entries@, cmask@, start));
            assert(entries_dist_ok(entries@, start));
            assert forall|k: int| 0 <= k < open@.len() implies (#[trigger] open@[k]).h_cost
                == manhattan_spec(open@[k].position, goal) by {
                assert(open@[0].h_cost == h0);
            }
            assert forall|p: Position|
                (dset_of(entries@).contains(p) || p == start) && !cset_of(cmask@).contains(
                    p,
                ) implies exists|k: int|
                0 <= k < open@.len() && (#[trigger] open@[k].position) == p by {
                assert(open@[0].position == start);
            }
            if straight_instance(obst, start, goal) {
                assert(closed_optimal(entries@, cmask@, start));
                assert(closed_tight(entries@, cmask@, obst, start));
                let wdirs = choose|wdirs: Seq<Direction>| straight_path(obst, start, goal, wdirs);
                assert(wdirs.subrange(0, 0) =~= Seq::<Direction>::empty());
                assert(follow_path(start, wdirs.subrange(0, 0)) == start);
                assert(wavefront(entries@, cmask@, obst, start, goal, wdirs, 0));
            }
        }
        while open.len() > 0
            invariant
                pos_wf(start),
                pos_wf(goal),
                obst == obstacles@.to_set(),
                omask@.len() == grid_cells(),
                forall|p: Position| pos_wf(p) ==> omask@[idx_spec(p)] == obst.contains(p),
                cmask@.len() == grid_cells(),
                entries@.len() == grid_cells(),
                entries_ok(entries@, obst, start),
                !dset_of(entries@).contains(start),
                open_ok(open@, entries@, cmask@, start),
                frontier_covers(open@, entries@, cmask@, start),
                closed_expanded(entries@, cmask@, obst, start),
                forall|p: Position|
                    #[trigger] cset_of(cmask@).contains(p) ==> dset_of(entries@).contains(p) || p
                        == start,
                cset_of(cmask@).finite(),
                cset_of(cmask@).len() <= grid_cells(),
                !cset_of(cmask@).contains(goal),
                entries_dist_ok(entries@, start),
                open_h_ok(open@, goal),
                straight_instance(obst, start, goal) ==> closed_optimal(entries@, cmask@, start),
                straight_instance(obst, start, goal) ==> closed_tight(
                    entries@,
                    cmask@,
                    obst,
                    start,
                ),
                straight_instance(obst, start, goal) ==> wavefront_alive(
                    entries@,
                    cmask@,
                    obst,
                    start,
                    goal,
                ),
            decreases grid_cells() - cset_of(cmask@).len(),
        {
            proof {
                assert(dset_of(entries@).subset_of(all_positions()));
                lemma_all_positions_finite();
                lemma_len_subset(dset_of(entries@), all_positions());
                assert forall|k: int|
                    0 <= k < open@.len() implies (#[trigger] open@[k]).g_cost + open@[k].h_cost
                    <= u32::MAX by {
                    assert(node_ok(open@[k], entries@, cmask@, start));
                }
            }
            let bi = min_f_index(&open);
            let ghost o_pre = open@;
            let current = open.swap_remove(bi);
            proof {
                if straight_instance(obst, start, goal) {
                    lemma_pop_optimal(o_pre, bi as int, entries@, cmask@, obst, start, goal);
                    assert(current.g_cost == torus_dist(start, current.position));
                }
            }
            if current.position == goal {
                proof {
                    assert(node_ok(o_pre[bi as int], entries@, cmask@, start));
                    if straight_instance(obst, start, goal) && goal != start {
                        assert(dset_of(entries@).contains(goal));
                        assert(entry_at(entries@, goal).1 == current.g_cost);
                        assert(measure_of(entries@, goal) == torus_dist(start, goal));
                    }
                }
                let path = reconstruct(&entries, start, goal, Ghost(obst));
                proof {
                    assert(path_ok(obst, start, path@) && follow_path(start, path@) == goal);
                    lemma_walk_at_least_dist(start, path@);
                }
                return Option::Some(path);
            }
            let ci = cell_index(current.position);
            proof {
                assert(node_ok(o_pre[bi as int], entries@, cmask@, start));
            }
            let ghost cm0 = cmask@;
            cmask.set(ci, true);
            proof {
                lemma_close_current(
                    o_pre,
                    open@,
                    bi as int,
                    current,
                    entries@,
                    cm0,
                    cmask@,
                    obst,
                    start,
                    goal,
                );
                assert forall|k: int| 0 <= k < open@.len() implies (#[trigger] open@[k]).h_cost
                    == manhattan_spec(open@[k].position, goal) by {
                    let j = choose|j: int| 0 <= j < o_pre.len() && o_pre[j] == open@[k];
                    assert(o_pre[j].h_cost == manhattan_spec(o_pre[j].position, goal));
                }
            }
            let ghost e_a = entries@;
            expand_neighbor(
                current.position,
                current.g_cost,
                Direction::Up,
                goal,
                &omask,
                &cmask,
                &mut entries,
                &mut open,
                start,
                Ghost(obst),
            );
            let ghost e_b = entries@;
            expand_neighbor(
                current.position,
                current.g_cost,
                Direction::Down,
                goal,
                &omask,
                &cmask,
                &mut entries,
                &mut open,
                start,
                Ghost(obst),
            );
            let ghost e_c = entries@;
            expand_neighbor(
                current.position,
                current.g_cost,
                Direction::Left,
                goal,
                &omask,
                &cmask,
                &mut entries,
                &mut open,
                start,
                Ghost(obst),
            );
            let ghost e_d = entries@;
            expand_neighbor(
                current.position,
                current.g_cost,
                Direction::Right,
                goal,
                &omask,
                &cmask,
                &mut entries,
                &mut open,
                start,
                Ghost(obst),
            );
            proof {
                assert(current.position == start || dset_of(e_a).contains(current.position));
                lemma_round_closure(
                    e_a,
                    e_b,
                    e_c,
                    e_d,
                    entries@,
                    cm0,
                    cmask@,
                    obst,
                    start,
                    current.position,
                );
                if straight_instance(obst, start, goal) {
                    lemma_round_optimal(
                        e_a,
                        e_b,
                        e_c,
                        e_d,
                        entries@,
                        cm0,
                        cmask@,
                        obst,
                        start,
                        goal,
                        current.position,
                        current.g_cost,
                    );
                }
            }
        }
        proof {
            // with the frontier empty, the start cell can only be closed
            assert(cset_of(cmask@).contains(start)) by {
                if !cset_of(cmask@).contains(start) {
                    assert(exists|k: int|
                        0 <= k < open@.len() && (#[trigger] open@[k].position) == start);
                }
            }
            assert forall|q: Position, dd: Direction|
                cset_of(cmask@).contains(q) && !obst.contains(
                    #[trigger] move_by_spec(q, dd),
                ) implies cset_of(cmask@).contains(move_by_spec(q, dd)) by {
                let m = move_by_spec(q, dd);
                assert(dset_of(entries@).contains(m) || m == start);
                if !cset_of(cmask@).contains(m) {
                    assert(exists|k: int|
                        0 <= k < open@.len() && (#[trigger] open@[k].position) == m);
                }
            }
            assert(!reachable(obst, start, goal)) by {
                if reachable(obst, start, goal) {
                    let dirs = choose|dirs: Seq<Direction>|
                        path_ok(obst, start, dirs) && follow_path(start, dirs) == goal;
                    lemma_closed_set_covers(obst, start, cset_of(cmask@), dirs);
                }
            }
            // the start always reaches itself, so an unreachable goal differs
            lemma_reachable_self(obst, start);
            // a straight instance would make the goal reachable
            if straight_instance(obst, start, goal) {
                let wdirs = choose|wdirs: Seq<Direction>| straight_path(obst, start, goal, wdirs);
                assert(path_ok(obst, start, wdirs) && follow_path(start, wdirs) == goal);
                assert(reachable(obst, start, goal));
            }
        }
        Option::None
    }
}

} // verus!
