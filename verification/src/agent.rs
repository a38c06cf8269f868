use crate::game::GameState;
use crate::grid::{
    all_positions, dir_index, grid_cells, idx_spec, lemma_all_positions_finite,
    lemma_idx_bijective, lemma_opposite, move_by_spec, opposite_spec, pos_wf, Direction, Position,
    GRID_HEIGHT, GRID_WIDTH,
};
use crate::reach::{
    follow_path, lemma_closed_set_covers, lemma_reachable_self, lemma_reachable_step, path_ok,
    reach_set, reachable, straight_instance,
};
use vstd::prelude::*;
use vstd::set_lib::lemma_len_subset;

verus! {

/// The autonomous player: an A*-style planner toward the apple, a flood-fill
/// reachability analyzer, a safety oracle built on it, and a space-maximizing
/// fallback.
pub struct AIAgent;

/// Row-major cell number of a well-formed position, as an index into the
/// per-cell masks.
pub(crate) fn cell_index(p: Position) -> (r: usize)
    requires
        pos_wf(p),
    ensures
        r == idx_spec(p),
        r < grid_cells(),
{
    proof {
        assert((p.y as usize) * (GRID_WIDTH as usize) == (p.y as usize) * 40);
        assert((p.y as int) * (GRID_WIDTH as int) == (p.y as int) * 40);
    }
    (p.y as usize) * (GRID_WIDTH as usize) + (p.x as usize)
}

/// A mask with one `false` entry per grid cell.
pub(crate) fn false_mask() -> (m: Vec<bool>)
    ensures
        m@.len() == grid_cells(),
        forall|i: int| 0 <= i < grid_cells() ==> !m@[i],
{
    proof {
        assert((GRID_WIDTH as usize) * (GRID_HEIGHT as usize) == 40usize * 30);
        assert((GRID_WIDTH as int) * (GRID_HEIGHT as int) == 40 * 30);
    }
    let n: usize = (GRID_WIDTH as usize) * (GRID_HEIGHT as usize);
    let mut m: Vec<bool> = Vec::new();
    while m.len() < n
        invariant
            m@.len() <= n,
            n == grid_cells(),
            forall|i: int| 0 <= i < m@.len() ==> !m@[i],
        decreases n - m@.len(),
    {
        m.push(false);
    }
    m
}

/// A per-cell occupancy mask of a list of well-formed cells.
pub(crate) fn make_mask(cells: &Vec<Position>) -> (m: Vec<bool>)
    requires
        forall|i: int| 0 <= i < cells@.len() ==> pos_wf(#[trigger] cells@[i]),
    ensures
        m@.len() == grid_cells(),
        forall|p: Position| pos_wf(p) ==> m@[idx_spec(p)] == cells@.contains(p),
{
    let mut m = false_mask();
    proof {
        assert forall|p: Position| pos_wf(p) implies m@[idx_spec(p)] == cells@.subrange(
            0,
            0,
        ).contains(p) by {
            lemma_idx_bijective(p);
        }
    }
    let mut j: usize = 0;
    while j < cells.len()
        invariant
            forall|i: int| 0 <= i < cells@.len() ==> pos_wf(#[trigger] cells@[i]),
            0 <= j <= cells@.len(),
            m@.len() == grid_cells(),
            forall|p: Position|
                pos_wf(p) ==> m@[idx_spec(p)] == cells@.subrange(0, j as int).contains(p),
        decreases cells@.len() - j,
    {
        let c = cells[j];
        let ci = cell_index(c);
        let ghost m_old = m@;
        m.set(ci, true);
        proof {
            assert(cells@.subrange(0, j + 1) =~= cells@.subrange(0, j as int).push(c));
            assert forall|p: Position| pos_wf(p) implies m@[idx_spec(p)] == cells@.subrange(
                0,
                j + 1,
            ).contains(p) by {
                lemma_idx_bijective(p);
                lemma_idx_bijective(c);
                if p == c {
                    assert(cells@.subrange(0, j + 1).contains(p)) by {
                        assert(cells@.subrange(0, j + 1)[j as int] == c);
                    }
                } else {
                    assert(idx_spec(p) != idx_spec(c));
                    assert(m@[idx_spec(p)] == m_old[idx_spec(p)]);
                    assert(cells@.subrange(0, j + 1).contains(p) == cells@.subrange(
                        0,
                        j as int,
                    ).contains(p)) by {
                        if cells@.subrange(0, j as int).contains(p) {
                            let k = choose|k: int|
                                0 <= k < j && cells@.subrange(0, j as int)[k] == p;
                            assert(cells@.subrange(0, j + 1)[k] == p);
                        }
                        if cells@.subrange(0, j + 1).contains(p) {
                            let s = cells@.subrange(0, j + 1);
                            let k = choose|k: int| 0 <= k < s.len() && s[k] == p;
                            assert(k < j);
                            assert(cells@.subrange(0, j as int)[k] == p);
                        }
                    }
                }
            }
        }
        j += 1;
    }
    proof {
        assert(cells@.subrange(0, cells@.len() as int) =~= cells@);
    }
    m
}

/// Extending a sequence twice at the end keeps the original as a prefix.
pub(crate) proof fn lemma_prefix_trans(a: Seq<Position>, b: Seq<Position>, c: Seq<Position>)
    requires
        a.len() <= b.len() <= c.len(),
        b.subrange(0, a.len() as int) == a,
        c.subrange(0, b.len() as int) == b,
    ensures
        c.subrange(0, a.len() as int) == a,
{
    assert forall|k: int| 0 <= k < a.len() implies c.subrange(0, a.len() as int)[k] == a[k] by {
        assert(c.subrange(0, b.len() as int)[k] == b[k]);
        assert(b.subrange(0, a.len() as int)[k] == a[k]);
    }
    assert(c.subrange(0, a.len() as int) =~= a);
}

/// A sequence extends another: the shorter one is its prefix.
pub(crate) proof fn lemma_prefix_contains(s1: Seq<Position>, s2: Seq<Position>, x: Position)
    requires
        s1.len() <= s2.len(),
        s2.subrange(0, s1.len() as int) == s1,
        s1.contains(x),
    ensures
        s2.contains(x),
{
    let k = choose|k: int| 0 <= k < s1.len() && s1[k] == x;
    assert(s2[k] == s2.subrange(0, s1.len() as int)[k]);
}

/// Examine the neighbour of `pos` in direction `d` during a flood-fill
/// expansion: if it is free and not yet visited, mark it visited and enqueue
/// it. The queue only ever grows at its end, never reorders, and holds each
/// visited cell exactly once.
#[verifier::rlimit(30)]
fn visit_neighbor(
    pos: Position,
    d: Direction,
    omask: &Vec<bool>,
    vmask: &mut Vec<bool>,
    queue: &mut Vec<Position>,
    Ghost(obst): Ghost<Set<Position>>,
    Ghost(start): Ghost<Position>,
)
    requires
        pos_wf(pos),
        pos_wf(start),
        reachable(obst, start, pos),
        omask@.len() == grid_cells(),
        forall|p: Position| pos_wf(p) ==> omask@[idx_spec(p)] == obst.contains(p),
        old(vmask)@.len() == grid_cells(),
        forall|p: Position| pos_wf(p) ==> old(vmask)@[idx_spec(p)] == old(queue)@.contains(p),
        old(queue)@.no_duplicates(),
        forall|i: int| 0 <= i < old(queue)@.len() ==> pos_wf(#[trigger] old(queue)@[i]),
        forall|i: int|
            0 <= i < old(queue)@.len() ==> reachable(obst, start, #[trigger] old(queue)@[i]),
    ensures
        final(vmask)@.len() == grid_cells(),
        forall|p: Position| pos_wf(p) ==> final(vmask)@[idx_spec(p)] == final(queue)@.contains(p),
        final(queue)@.no_duplicates(),
        forall|i: int| 0 <= i < final(queue)@.len() ==> pos_wf(#[trigger] final(queue)@[i]),
        forall|i: int|
            0 <= i < final(queue)@.len() ==> reachable(obst, start, #[trigger] final(queue)@[i]),
        old(queue)@.len() <= final(queue)@.len() <= old(queue)@.len() + 1,
        final(queue)@.subrange(0, old(queue)@.len() as int) == old(queue)@,
        !obst.contains(move_by_spec(pos, d)) ==> final(queue)@.contains(move_by_spec(pos, d)),
{
    let npos = pos.move_by(d);
    let ni = cell_index(npos);
    proof {
        lemma_idx_bijective(npos);
    }
    if !omask[ni] && !vmask[ni] {
        vmask.set(ni, true);
        queue.push(npos);
        proof {
            lemma_reachable_step(obst, start, pos, d);
            assert(queue@.subrange(0, old(queue)@.len() as int) =~= old(queue)@);
            assert(queue@[old(queue)@.len() as int] == npos);
            assert forall|i: int, j: int|
                0 <= i < queue@.len() && 0 <= j < queue@.len() && i != j implies queue@[i]
                != queue@[j] by {
                if i < old(queue)@.len() && j < old(queue)@.len() {
                } else if j == old(queue)@.len() as int {
                    assert(!old(queue)@.contains(npos));
                } else {
                    assert(!old(queue)@.contains(npos));
                }
            }
            assert forall|p: Position| pos_wf(p) implies vmask@[idx_spec(p)]
                == queue@.contains(p) by {
                lemma_idx_bijective(p);
                if p == npos {
                } else {
                    assert(idx_spec(p) != idx_spec(npos));
                    assert(vmask@[idx_spec(p)] == old(vmask)@[idx_spec(p)]);
                    assert(queue@.contains(p) == old(queue)@.contains(p)) by {
                        if old(queue)@.contains(p) {
                            lemma_prefix_contains(old(queue)@, queue@, p);
                        }
                        if queue@.contains(p) {
                            let k = choose|k: int| 0 <= k < queue@.len() && queue@[k] == p;
                            assert(k < old(queue)@.len());
                            assert(old(queue)@[k] == p);
                        }
                    }
                }
            }
        }
    } else {
        proof {
            assert(queue@.subrange(0, old(queue)@.len() as int) =~= old(queue)@);
            if !obst.contains(move_by_spec(pos, d)) {
                assert(vmask@[idx_spec(npos)]);
            }
        }
    }
}

impl AIAgent {
    /// Count the cells reachable from `start` by 4-directional wrapped moves
    /// that never step onto a cell of `obstacles`, the start cell included.
    /// Breadth-first expansion over a to-visit queue and a visited mask; the
    /// count is exactly the cardinality of the reachable set.
    pub fn flood_fill(start: Position, obstacles: &Vec<Position>) -> (r: usize)
        requires
            pos_wf(start),
            forall|i: int| 0 <= i < obstacles@.len() ==> pos_wf(#[trigger] obstacles@[i]),
        ensures
            r == reach_set(obstacles@.to_set(), start).len(),
            1 <= r <= grid_cells(),
    {
        let ghost obst = obstacles@.to_set();
        let omask = make_mask(obstacles);
        let mut vmask = false_mask();
        let mut queue: Vec<Position> = Vec::new();
        let si = cell_index(start);
        vmask.set(si, true);
        queue.push(start);
        proof {
            lemma_reachable_self(obst, start);
            lemma_idx_bijective(start);
            assert forall|p: Position| pos_wf(p) implies vmask@[idx_spec(p)]
                == queue@.contains(p) by {
                lemma_idx_bijective(p);
                if p == start {
                    assert(queue@[0] == start);
                } else {
                    assert(idx_spec(p) != idx_spec(start));
                    if queue@.contains(p) {
                        let k = choose|k: int| 0 <= k < queue@.len() && queue@[k] == p;
                    }
                }
            }
        }
        let mut qhead: usize = 0;
        while qhead < queue.len()
            invariant
                pos_wf(start),
                obst == obstacles@.to_set(),
                omask@.len() == grid_cells(),
                forall|p: Position| pos_wf(p) ==> omask@[idx_spec(p)] == obst.contains(p),
                vmask@.len() == grid_cells(),
                forall|p: Position| pos_wf(p) ==> vmask@[idx_spec(p)] == queue@.contains(p),
                queue@.no_duplicates(),
                forall|i: int| 0 <= i < queue@.len() ==> pos_wf(#[trigger] queue@[i]),
                forall|i: int| 0 <= i < queue@.len() ==> reachable(obst, start, #[trigger] queue@[i]),
                queue@.contains(start),
                qhead <= queue@.len(),
                queue@.len() <= grid_cells(),
                forall|j: int, dd: Direction|
                    0 <= j < qhead && !obst.contains(#[trigger] move_by_spec(queue@[j], dd))
                        ==> queue@.contains(move_by_spec(queue@[j], dd)),
            decreases grid_cells() - qhead,
        {
            let ghost q0 = queue@;
            let pos = queue[qhead];
            visit_neighbor(pos, Direction::Up, &omask, &mut vmask, &mut queue, Ghost(obst), Ghost(start));
            let ghost q1 = queue@;
            visit_neighbor(pos, Direction::Down, &omask, &mut vmask, &mut queue, Ghost(obst), Ghost(start));
            let ghost q2 = queue@;
            visit_neighbor(pos, Direction::Left, &omask, &mut vmask, &mut queue, Ghost(obst), Ghost(start));
            let ghost q3 = queue@;
            visit_neighbor(pos, Direction::Right, &omask, &mut vmask, &mut queue, Ghost(obst), Ghost(start));
            proof {
                // the queue only grew at the end, so earlier entries and
                // membership facts carry over
                lemma_prefix_trans(q2, q3, queue@);
                lemma_prefix_trans(q1, q2, queue@);
                lemma_prefix_trans(q0, q1, queue@);
                assert(queue@.contains(start)) by {
                    lemma_prefix_contains(q0, queue@, start);
                }
                // every cell in the queue is a distinct grid cell, so the
                // queue can never outgrow the grid
                assert(queue@.len() <= grid_cells()) by {
                    queue@.unique_seq_to_set();
                    assert forall|p: Position| queue@.to_set().contains(p)
                        implies all_positions().contains(p) by {
                        let k = choose|k: int| 0 <= k < queue@.len() && queue@[k] == p;
                    }
                    lemma_all_positions_finite();
                    lemma_len_subset(queue@.to_set(), all_positions());
                }
                // processed cells, the newly processed one included, have all
                // their free neighbours in the queue
                assert forall|j: int, dd: Direction|
                    0 <= j < qhead + 1 && !obst.contains(#[trigger] move_by_spec(queue@[j], dd))
                        implies queue@.contains(move_by_spec(queue@[j], dd)) by {
                    if j < qhead {
                        assert(queue@[j] == q0[j]);
                        lemma_prefix_contains(q0, queue@, move_by_spec(q0[j], dd));
                    } else {
                        assert(queue@[j] == q0[qhead as int]);
                        assert(queue@[j] == pos);
                        match dd {
                            Direction::Up => {
                                lemma_prefix_contains(q1, queue@, move_by_spec(pos, dd));
                            },
                            Direction::Down => {
                                lemma_prefix_contains(q2, queue@, move_by_spec(pos, dd));
                            },
                            Direction::Left => {
                                lemma_prefix_contains(q3, queue@, move_by_spec(pos, dd));
                            },
                            Direction::Right => {},
                        }
                    }
                }
            }
            qhead += 1;
        }
        proof {
            let v = queue@.to_set();
            assert forall|q: Position, dd: Direction|
                v.contains(q) && !obst.contains(#[trigger] move_by_spec(q, dd)) implies v.contains(
                move_by_spec(q, dd),
            ) by {
                let j = choose|j: int| 0 <= j < queue@.len() && queue@[j] == q;
                assert(queue@.contains(move_by_spec(queue@[j], dd)));
            }
            assert forall|p: Position| reach_set(obst, start).contains(p) implies v.contains(
                p,
            ) by {
                let dirs = choose|dirs: Seq<Direction>|
                    path_ok(obst, start, dirs) && follow_path(start, dirs) == p;
                lemma_closed_set_covers(obst, start, v, dirs);
            }
            assert forall|p: Position| v.contains(p) implies reach_set(obst, start).contains(
                p,
            ) by {
                let j = choose|j: int| 0 <= j < queue@.len() && queue@[j] == p;
            }
            assert(reach_set(obst, start) =~= v);
            queue@.unique_seq_to_set();
        }
        queue.len()
    }

    /// Judge a candidate next head cell: simulate the move by forbidding the
    /// whole current body except its head (which the move vacates), and accept
    /// only if the space reachable from the candidate strictly exceeds the
    /// body length, so every remaining segment has room to keep moving. A
    /// heuristic sufficiency check, not a proof of long-term survivability.
    pub fn is_safe_move(next_pos: Position, snake_body: &Vec<Position>) -> (r: bool)
        requires
            pos_wf(next_pos),
            snake_body@.len() >= 1,
            forall|i: int| 0 <= i < snake_body@.len() ==> pos_wf(#[trigger] snake_body@[i]),
        ensures
            r == (reach_set(snake_body@.drop_first().to_set(), next_pos).len()
                > snake_body@.len()),
    {
        let mut future_obstacles: Vec<Position> = Vec::new();
        let mut i: usize = 1;
        while i < snake_body.len()
            invariant
                1 <= i <= snake_body@.len(),
                forall|k: int| 0 <= k < snake_body@.len() ==> pos_wf(#[trigger] snake_body@[k]),
                future_obstacles@ =~= snake_body@.subrange(1, i as int),
            decreases snake_body@.len() - i,
        {
            future_obstacles.push(snake_body[i]);
            proof {
                assert(future_obstacles@ =~= snake_body@.subrange(1, i + 1));
            }
            i += 1;
        }
        proof {
            assert(future_obstacles@ =~= snake_body@.drop_first());
        }
        let reachable_count = Self::flood_fill(next_pos, &future_obstacles);
        reachable_count > snake_body.len()
    }
}

/// A direction the fallback policy may take: not the exact reverse of the
/// current heading, and its target cell not occupied by the body.
pub open spec fn dir_allowed(
    head: Position,
    body: Seq<Position>,
    current: Direction,
    d: Direction,
) -> bool {
    d != opposite_spec(current) && !body.to_set().contains(move_by_spec(head, d))
}

/// The forbidden set the fallback policy scores a candidate against: the
/// body without its tail cell (the tail vacates on the next advance) plus the
/// candidate head cell itself.
pub open spec fn fallback_obstacles(body: Seq<Position>, c: Position) -> Set<Position> {
    body.to_set().remove(body.last()).insert(c)
}

/// The fallback score of a direction: the number of cells reachable from its
/// target under the fallback forbidden set.
pub open spec fn dir_score(head: Position, body: Seq<Position>, d: Direction) -> nat {
    reach_set(fallback_obstacles(body, move_by_spec(head, d)), move_by_spec(head, d)).len()
}

/// The running optimum of the fallback scan after the first `k` directions
/// of the canonical order have been considered.
pub(crate) open spec fn best_so_far(
    head: Position,
    body: Seq<Position>,
    current: Direction,
    k: int,
    best: Direction,
    score: nat,
) -> bool {
    if exists|d: Direction| dir_index(d) < k && #[trigger] dir_allowed(head, body, current, d) {
        &&& dir_allowed(head, body, current, best)
        &&& dir_index(best) < k
        &&& score == dir_score(head, body, best)
        &&& forall|d: Direction|
            dir_index(d) < k && #[trigger] dir_allowed(head, body, current, d) ==> dir_score(
                head,
                body,
                d,
            ) <= score
        &&& forall|d: Direction|
            dir_index(d) < k && #[trigger] dir_allowed(head, body, current, d) && dir_score(
                head,
                body,
                d,
            ) == score ==> dir_index(best) <= dir_index(d)
    } else {
        best == current && score == 0
    }
}

/// Whether any body cell equals `pos`.
fn list_contains(cells: &Vec<Position>, pos: Position) -> (r: bool)
    ensures
        r == cells@.contains(pos),
{
    let mut i: usize = 0;
    while i < cells.len()
        invariant
            0 <= i <= cells@.len(),
            forall|j: int| 0 <= j < i ==> cells@[j] != pos,
        decreases cells@.len() - i,
    {
        if cells[i] == pos {
            return true;
        }
        i += 1;
    }
    false
}

/// Build the fallback forbidden list: every body cell other than the tail
/// value, plus the candidate cell.
fn fallback_obstacle_list(snake_body: &Vec<Position>, next_pos: Position) -> (r: Vec<Position>)
    requires
        snake_body@.len() >= 1,
        pos_wf(next_pos),
        forall|i: int| 0 <= i < snake_body@.len() ==> pos_wf(#[trigger] snake_body@[i]),
    ensures
        r@.to_set() == fallback_obstacles(snake_body@, next_pos),
        forall|i: int| 0 <= i < r@.len() ==> pos_wf(#[trigger] r@[i]),
{
    let tail = snake_body[snake_body.len() - 1];
    let mut r: Vec<Position> = Vec::new();
    let mut i: usize = 0;
    while i < snake_body.len()
        invariant
            0 <= i <= snake_body@.len(),
            snake_body@.len() >= 1,
            tail == snake_body@.last(),
            forall|j: int| 0 <= j < snake_body@.len() ==> pos_wf(#[trigger] snake_body@[j]),
            forall|j: int| 0 <= j < r@.len() ==> pos_wf(#[trigger] r@[j]),
            forall|p: Position|
                #[trigger] r@.contains(p) <==> (snake_body@.subrange(0, i as int).contains(p) && p
                    != tail),
        decreases snake_body@.len() - i,
    {
        let c = snake_body[i];
        let ghost r0 = r@;
        if c != tail {
            r.push(c);
        }
        proof {
            assert(snake_body@.subrange(0, i + 1) =~= snake_body@.subrange(0, i as int).push(c));
            assert forall|p: Position| #[trigger] r@.contains(p) <==> (snake_body@.subrange(
                0,
                i + 1,
            ).contains(p) && p != tail) by {
                let s1 = snake_body@.subrange(0, i + 1);
                let s0 = snake_body@.subrange(0, i as int);
                if r@.contains(p) {
                    let j = choose|j: int| 0 <= j < r@.len() && r@[j] == p;
                    if j < r0.len() {
                        assert(r0[j] == p);
                        assert(r0.contains(p));
                        let j2 = choose|j2: int| 0 <= j2 < s0.len() && s0[j2] == p;
                        assert(s1[j2] == p);
                    } else {
                        assert(p == c);
                        assert(s1[i as int] == c);
                    }
                }
                if s1.contains(p) && p != tail {
                    let j = choose|j: int| 0 <= j < s1.len() && s1[j] == p;
                    if j < i {
                        assert(s0[j] == p);
                        assert(s0.contains(p));
                        assert(r0.contains(p));
                        let j2 = choose|j2: int| 0 <= j2 < r0.len() && r0[j2] == p;
                        assert(r@[j2] == p);
                    } else {
                        assert(p == c);
                        assert(r@[r@.len() - 1] == c);
                    }
                }
            }
        }
        i += 1;
    }
    let ghost q = r@;
    r.push(next_pos);
    proof {
        let body = snake_body@;
        assert(body.subrange(0, body.len() as int) =~= body);
        assert(r@.to_set() =~= fallback_obstacles(body, next_pos)) by {
            assert forall|p: Position|
                r@.to_set().contains(p) == fallback_obstacles(body, next_pos).contains(p) by {
                assert(r@.contains(p) <==> (q.contains(p) || p == next_pos)) by {
                    if r@.contains(p) {
                        let j = choose|j: int| 0 <= j < r@.len() && r@[j] == p;
                        if j < q.len() {
                            assert(q[j] == p);
                        }
                    }
                    if q.contains(p) {
                        let j = choose|j: int| 0 <= j < q.len() && q[j] == p;
                        assert(r@[j] == p);
                    }
                    assert(r@[r@.len() - 1] == next_pos);
                }
            }
        }
    }
    r
}

impl AIAgent {
    /// The one-ply greedy fallback: among the directions that are not the
    /// immediate reverse of the current heading and whose target cell is
    /// unoccupied, pick the one whose target reaches the most free space
    /// (body minus tail plus candidate forbidden); ties keep the earliest
    /// direction in the canonical order. When no direction qualifies, keep
    /// the current heading rather than hang.
    pub fn find_safest_direction(
        head: Position,
        snake_body: &Vec<Position>,
        current_dir: Direction,
    ) -> (r: Direction)
        requires
            pos_wf(head),
            snake_body@.len() >= 1,
            forall|i: int| 0 <= i < snake_body@.len() ==> pos_wf(#[trigger] snake_body@[i]),
        ensures
            (exists|d: Direction| #[trigger] dir_allowed(head, snake_body@, current_dir, d))
                ==> dir_allowed(head, snake_body@, current_dir, r) && (forall|d: Direction|
                #[trigger] dir_allowed(head, snake_body@, current_dir, d) ==> dir_score(
                    head,
                    snake_body@,
                    d,
                ) <= dir_score(head, snake_body@, r)) && (forall|d: Direction|
                #[trigger] dir_allowed(head, snake_body@, current_dir, d) && dir_score(
                    head,
                    snake_body@,
                    d,
                ) == dir_score(head, snake_body@, r) ==> dir_index(r) <= dir_index(d)),
            !(exists|d: Direction| #[trigger] dir_allowed(head, snake_body@, current_dir, d)) ==> r
                == current_dir,
    {
        let mut best_dir = current_dir;
        let mut best_score: usize = 0;
        let mut k: usize = 0;
        while k < 4
            invariant
                0 <= k <= 4,
                pos_wf(head),
                snake_body@.len() >= 1,
                forall|i: int| 0 <= i < snake_body@.len() ==> pos_wf(#[trigger] snake_body@[i]),
                best_so_far(head, snake_body@, current_dir, k as int, best_dir, best_score as nat),
            decreases 4 - k,
        {
            let dir = if k == 0 {
                Direction::Up
            } else if k == 1 {
                Direction::Down
            } else if k == 2 {
                Direction::Left
            } else {
                Direction::Right
            };
            proof {
                assert(dir_index(dir) == k);
                assert forall|d: Direction| dir_index(d) == k as int implies d == dir by {}
            }
            let mut considered = false;
            if dir != current_dir.opposite() {
                let next_pos = head.move_by(dir);
                if !list_contains(snake_body, next_pos) {
                    considered = true;
                    proof {
                        assert(dir_allowed(head, snake_body@, current_dir, dir));
                    }
                    let temp = fallback_obstacle_list(snake_body, next_pos);
                    let space = AIAgent::flood_fill(next_pos, &temp);
                    proof {
                        assert(space as nat == dir_score(head, snake_body@, dir));
                        assert(space >= 1);
                    }
                    if space > best_score {
                        best_score = space;
                        best_dir = dir;
                    }
                }
            }
            proof {
                if !considered {
                    assert(!dir_allowed(head, snake_body@, current_dir, dir));
                }
                assert(best_so_far(
                    head,
                    snake_body@,
                    current_dir,
                    k + 1,
                    best_dir,
                    best_score as nat,
                ));
            }
            k += 1;
        }
        proof {
            assert forall|d: Direction| dir_index(d) < 4 by {}
        }
        best_dir
    }
}

/// The decision policy as a relation between the game state and the chosen
/// direction, evaluated fresh every decision. One of three things holds of
/// the choice:
/// - primary tier: the direction opens some walk around the whole body that
///   reaches the apple within the planner's proven length bounds (at least
///   the toroidal distance, at most the number of grid cells, and exactly
///   the Manhattan distance on a straight reachable instance), and its
///   target cell passes the safety oracle (the space reachable from it, with
///   the body's head vacated, strictly exceeds the body length);
/// - fallback tier: the direction is allowed (not the reverse of the heading,
///   target unoccupied) and maximizes the fallback free-space score, earliest
///   direction winning ties; or
/// - no direction is allowed at all, and the current heading is kept rather
///   than hang.
pub open spec fn decide_policy(game: GameState, r: Direction) -> bool {
    let head = game.snake.head_spec();
    let body = game.snake.body@;
    let cur = game.snake.direction;
    ||| (exists|dirs: Seq<Direction>|
        #[trigger] path_ok(body.to_set(), head, dirs) && 0 < dirs.len() <= grid_cells()
            && crate::grid::torus_dist(head, game.apple) <= dirs.len() && (straight_instance(
            body.to_set(),
            head,
            game.apple,
        ) ==> dirs.len() == crate::grid::manhattan_spec(head, game.apple)) && follow_path(
            head,
            dirs,
        ) == game.apple && dirs[0] == r && reach_set(
            body.drop_first().to_set(),
            move_by_spec(head, r),
        ).len() > body.len())
    ||| {
        &&& dir_allowed(head, body, cur, r)
        &&& forall|d: Direction|
            #[trigger] dir_allowed(head, body, cur, d) ==> dir_score(head, body, d) <= dir_score(
                head,
                body,
                r,
            )
        &&& forall|d: Direction|
            #[trigger] dir_allowed(head, body, cur, d) && dir_score(head, body, d) == dir_score(
                head,
                body,
                r,
            ) ==> dir_index(r) <= dir_index(d)
    }
    ||| (!(exists|d: Direction| #[trigger] dir_allowed(head, body, cur, d)) && r == cur)
}

impl AIAgent {
    /// Pick one direction for the current tick. Primary tier: plan a route to
    /// the apple around the whole body and take its first step, provided the
    /// safety oracle accepts the resulting cell. Fallback: the greedy
    /// space-maximizing scan, keeping the current heading only when no
    /// direction qualifies. The contract pins the choice to that two-tier
    /// policy (`decide_policy`); in particular the choice is never the exact
    /// reverse of the current heading, and whenever any allowed direction
    /// exists the chosen target cell is unoccupied.
    pub fn decide(game: &GameState) -> (r: Direction)
        requires
            game.wf(),
        ensures
            decide_policy(*game, r),
            r != opposite_spec(game.snake.direction),
            r == game.snake.direction || !game.snake.body@.contains(
                move_by_spec(game.snake.head_spec(), r),
            ),
            (exists|d: Direction|
                #[trigger] dir_allowed(
                    game.snake.head_spec(),
                    game.snake.body@,
                    game.snake.direction,
                    d,
                )) ==> !game.snake.body@.contains(move_by_spec(game.snake.head_spec(), r)),
    {
        proof {
            assert(pos_wf(game.snake.body@[0]));
        }
        let head = game.snake.head();
        let apple = game.apple;
        let current_dir = game.snake.direction;
        if let Option::Some(path) = Self::find_path(head, apple, &game.snake.body) {
            if path.len() > 0 {
                let first_move = path[0];
                let next_pos = head.move_by(first_move);
                if Self::is_safe_move(next_pos, &game.snake.body) {
                    proof {
                        assert(!game.snake.body@.to_set().contains(next_pos));
                        assert(!game.snake.body@.contains(next_pos));
                        if first_move == opposite_spec(current_dir) {
                            assert(game.snake.body@[1] == next_pos);
                            assert(game.snake.body@.contains(next_pos));
                        }
                        // the planner's own walk witnesses the primary tier,
                        // within the length bounds its contract proves
                        assert(path_ok(game.snake.body@.to_set(), head, path@) && 0 < path@.len()
                            <= grid_cells() && crate::grid::torus_dist(head, game.apple)
                            <= path@.len() && (straight_instance(
                            game.snake.body@.to_set(),
                            head,
                            game.apple,
                        ) ==> path@.len() == crate::grid::manhattan_spec(head, game.apple))
                            && follow_path(head, path@) == game.apple && path@[0] == first_move
                            && reach_set(
                            game.snake.body@.drop_first().to_set(),
                            move_by_spec(head, first_move),
                        ).len() > game.snake.body@.len());
                        assert(decide_policy(*game, first_move));
                    }
                    return first_move;
                }
            }
        }
        let r = Self::find_safest_direction(head, &game.snake.body, current_dir);
        proof {
            if exists|d: Direction| #[trigger] dir_allowed(head, game.snake.body@, current_dir, d) {
                assert(dir_allowed(head, game.snake.body@, current_dir, r));
                assert(!game.snake.body@.to_set().contains(move_by_spec(head, r)));
            } else {
                assert(r == current_dir);
                lemma_opposite(current_dir);
            }
            assert(decide_policy(*game, r));
        }
        r
    }
}

} // verus!
