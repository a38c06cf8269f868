use crate::grid::{
    all_positions, lemma_all_positions_finite, lemma_move_wf, lemma_step_changes_dist_by_one,
    lemma_torus_dist_le_manhattan, lemma_torus_triangle, manhattan_spec, move_by_spec, pos_wf,
    torus_dist, Direction, Position,
};
use vstd::prelude::*;
use vstd::set_lib::lemma_len_subset;

verus! {

/// The cell reached from `p` after following the directions of `dirs` in
/// order, with toroidal wrapping at every step.
pub open spec fn follow_path(p: Position, dirs: Seq<Direction>) -> Position
    decreases dirs.len(),
{
    if dirs.len() == 0 {
        p
    } else {
        follow_path(move_by_spec(p, dirs[0]), dirs.drop_first())
    }
}

/// The walk from `p` along `dirs` never steps onto a forbidden cell. The
/// cell `p` itself is where the walk begins and is not itself tested; every
/// cell entered by a step must lie outside `obst`.
pub open spec fn path_ok(obst: Set<Position>, p: Position, dirs: Seq<Direction>) -> bool
    decreases dirs.len(),
{
    if dirs.len() == 0 {
        true
    } else {
        !obst.contains(move_by_spec(p, dirs[0])) && path_ok(
            obst,
            move_by_spec(p, dirs[0]),
            dirs.drop_first(),
        )
    }
}

/// `p` can be reached from `start` by 4-directional moves that never step
/// onto a cell of `obst`. The start cell is reachable by the empty walk.
pub open spec fn reachable(obst: Set<Position>, start: Position, p: Position) -> bool {
    exists|dirs: Seq<Direction>| path_ok(obst, start, dirs) && follow_path(start, dirs) == p
}

/// The set of cells reachable from `start` under the forbidden set `obst`.
pub open spec fn reach_set(obst: Set<Position>, start: Position) -> Set<Position> {
    Set::new(|p: Position| reachable(obst, start, p))
}

/// The start cell reaches itself.
pub proof fn lemma_reachable_self(obst: Set<Position>, start: Position)
    ensures
        reachable(obst, start, start),
{
    let dirs = Seq::<Direction>::empty();
    assert(path_ok(obst, start, dirs) && follow_path(start, dirs) == start);
}

/// Appending one direction to a walk moves its endpoint by one step.
pub proof fn lemma_follow_push(p: Position, dirs: Seq<Direction>, d: Direction)
    ensures
        follow_path(p, dirs.push(d)) == move_by_spec(follow_path(p, dirs), d),
    decreases dirs.len(),
{
    if dirs.len() == 0 {
        assert(dirs.push(d)[0] == d);
        assert(dirs.push(d).drop_first() =~= Seq::<Direction>::empty());
        assert(follow_path(move_by_spec(p, d), Seq::<Direction>::empty()) == move_by_spec(p, d));
    } else {
        assert(dirs.push(d)[0] == dirs[0]);
        assert(dirs.push(d).drop_first() =~= dirs.drop_first().push(d));
        lemma_follow_push(move_by_spec(p, dirs[0]), dirs.drop_first(), d);
    }
}

/// A legal walk stays legal after one more step onto a free cell.
pub proof fn lemma_path_ok_push(obst: Set<Position>, p: Position, dirs: Seq<Direction>, d: Direction)
    requires
        path_ok(obst, p, dirs),
        !obst.contains(move_by_spec(follow_path(p, dirs), d)),
    ensures
        path_ok(obst, p, dirs.push(d)),
    decreases dirs.len(),
{
    if dirs.len() == 0 {
        assert(dirs.push(d)[0] == d);
        assert(dirs.push(d).drop_first() =~= Seq::<Direction>::empty());
        assert(follow_path(p, dirs) == p);
        assert(path_ok(obst, move_by_spec(p, d), Seq::<Direction>::empty()));
    } else {
        assert(dirs.push(d)[0] == dirs[0]);
        assert(dirs.push(d).drop_first() =~= dirs.drop_first().push(d));
        lemma_path_ok_push(obst, move_by_spec(p, dirs[0]), dirs.drop_first(), d);
    }
}

/// Reachability extends across one legal step.
pub proof fn lemma_reachable_step(obst: Set<Position>, start: Position, p: Position, d: Direction)
    requires
        reachable(obst, start, p),
        !obst.contains(move_by_spec(p, d)),
    ensures
        reachable(obst, start, move_by_spec(p, d)),
{
    let dirs = choose|dirs: Seq<Direction>|
        path_ok(obst, start, dirs) && follow_path(start, dirs) == p;
    lemma_follow_push(start, dirs, d);
    lemma_path_ok_push(obst, start, dirs, d);
    assert(path_ok(obst, start, dirs.push(d)) && follow_path(start, dirs.push(d)) == move_by_spec(
        p,
        d,
    ));
}

/// Every cell of a walk from a well-formed start is well-formed.
pub proof fn lemma_follow_wf(p: Position, dirs: Seq<Direction>)
    requires
        pos_wf(p),
    ensures
        pos_wf(follow_path(p, dirs)),
    decreases dirs.len(),
{
    if dirs.len() > 0 {
        lemma_move_wf(p, dirs[0]);
        lemma_follow_wf(move_by_spec(p, dirs[0]), dirs.drop_first());
    }
}

/// A set that contains the start cell and is closed under legal steps
/// contains every reachable cell.
pub proof fn lemma_closed_set_covers(
    obst: Set<Position>,
    start: Position,
    s: Set<Position>,
    dirs: Seq<Direction>,
)
    requires
        s.contains(start),
        forall|q: Position, d: Direction|
            s.contains(q) && !obst.contains(#[trigger] move_by_spec(q, d)) ==> s.contains(
                move_by_spec(q, d),
            ),
        path_ok(obst, start, dirs),
    ensures
        s.contains(follow_path(start, dirs)),
    decreases dirs.len(),
{
    if dirs.len() > 0 {
        lemma_closed_set_covers(obst, move_by_spec(start, dirs[0]), s, dirs.drop_first());
    }
}

/// The reachable set from a well-formed start is a finite subset of the grid.
pub proof fn lemma_reach_set_finite(obst: Set<Position>, start: Position)
    requires
        pos_wf(start),
    ensures
        reach_set(obst, start).finite(),
        reach_set(obst, start).len() <= crate::grid::grid_cells(),
        reach_set(obst, start).subset_of(all_positions()),
{
    assert forall|p: Position| reach_set(obst, start).contains(p) implies all_positions().contains(
        p,
    ) by {
        let dirs = choose|dirs: Seq<Direction>|
            path_ok(obst, start, dirs) && follow_path(start, dirs) == p;
        lemma_follow_wf(start, dirs);
    }
    lemma_all_positions_finite();
    lemma_len_subset(reach_set(obst, start), all_positions());
}

/// A walk that avoids a forbidden set also avoids every smaller one.
pub proof fn lemma_path_ok_monotone(
    obst1: Set<Position>,
    obst2: Set<Position>,
    p: Position,
    dirs: Seq<Direction>,
)
    requires
        obst1.subset_of(obst2),
        path_ok(obst2, p, dirs),
    ensures
        path_ok(obst1, p, dirs),
    decreases dirs.len(),
{
    if dirs.len() > 0 {
        lemma_path_ok_monotone(obst1, obst2, move_by_spec(p, dirs[0]), dirs.drop_first());
    }
}

/// Law: reachability shrinks as the forbidden set grows. Adding cells to the
/// forbidden set can only remove reachable cells, so the reachable count is
/// monotonically non-increasing in the obstacle set.
pub proof fn lemma_reach_monotone(obst1: Set<Position>, obst2: Set<Position>, start: Position)
    requires
        obst1.subset_of(obst2),
        pos_wf(start),
    ensures
        reach_set(obst2, start).subset_of(reach_set(obst1, start)),
        reach_set(obst2, start).len() <= reach_set(obst1, start).len(),
        reach_set(obst1, start).finite(),
        reach_set(obst2, start).finite(),
{
    assert forall|p: Position| reach_set(obst2, start).contains(p) implies reach_set(
        obst1,
        start,
    ).contains(p) by {
        let dirs = choose|dirs: Seq<Direction>|
            path_ok(obst2, start, dirs) && follow_path(start, dirs) == p;
        lemma_path_ok_monotone(obst1, obst2, start, dirs);
    }
    lemma_reach_set_finite(obst1, start);
    lemma_reach_set_finite(obst2, start);
    lemma_len_subset(reach_set(obst2, start), reach_set(obst1, start));
}

/// Law: on an unobstructed grid every cell reaches every other cell, so a
/// path query with an empty forbidden set is never answered "no path". The
/// witness walk moves axis by axis and needs no wrap steps.
pub proof fn lemma_reachable_empty_obstacles(obst: Set<Position>, start: Position, goal: Position)
    requires
        pos_wf(start),
        pos_wf(goal),
        forall|p: Position| !obst.contains(p),
    ensures
        reachable(obst, start, goal),
    decreases manhattan_spec(start, goal),
{
    if start == goal {
        lemma_reachable_self(obst, start);
    } else {
        let d = if start.x < goal.x {
            Direction::Right
        } else if start.x > goal.x {
            Direction::Left
        } else if start.y < goal.y {
            Direction::Down
        } else {
            Direction::Up
        };
        let next = move_by_spec(start, d);
        assert(pos_wf(next));
        assert(manhattan_spec(next, goal) == manhattan_spec(start, goal) - 1);
        lemma_reachable_empty_obstacles(obst, next, goal);
        let dirs = choose|dirs: Seq<Direction>|
            path_ok(obst, next, dirs) && follow_path(next, dirs) == goal;
        let full = seq![d] + dirs;
        assert(full[0] == d);
        assert(full.drop_first() =~= dirs);
        assert(path_ok(obst, start, full));
        assert(follow_path(start, full) == goal);
    }
}

/// Law: no walk beats the toroidal distance. Every wrapped walk from `start`
/// to its endpoint takes at least `torus_dist` many steps; in particular,
/// whenever the Manhattan distance between two cells equals their toroidal
/// distance (no wrap shortcut on either axis), no walk between them is
/// shorter than the Manhattan distance.
pub proof fn lemma_walk_at_least_dist(start: Position, dirs: Seq<Direction>)
    requires
        pos_wf(start),
    ensures
        dirs.len() >= torus_dist(start, follow_path(start, dirs)),
        torus_dist(start, follow_path(start, dirs)) == manhattan_spec(
            start,
            follow_path(start, dirs),
        ) ==> dirs.len() >= manhattan_spec(start, follow_path(start, dirs)),
    decreases dirs.len(),
{
    if dirs.len() == 0 {
    } else {
        let next = move_by_spec(start, dirs[0]);
        lemma_move_wf(start, dirs[0]);
        lemma_walk_at_least_dist(next, dirs.drop_first());
        let end = follow_path(start, dirs);
        lemma_follow_wf(next, dirs.drop_first());
        lemma_step_changes_dist_by_one(start, dirs[0], end);
    }
}

/// A walk to `goal` of exactly Manhattan length that closes in on the goal
/// by one at every step: no sideways or backward moves and no wrap jumps.
pub open spec fn straight_path(
    obst: Set<Position>,
    start: Position,
    goal: Position,
    dirs: Seq<Direction>,
) -> bool {
    &&& path_ok(obst, start, dirs)
    &&& follow_path(start, dirs) == goal
    &&& dirs.len() == manhattan_spec(start, goal)
    &&& forall|i: int|
        0 <= i <= dirs.len() ==> manhattan_spec(
            follow_path(start, #[trigger] dirs.subrange(0, i)),
            goal,
        ) == manhattan_spec(start, goal) - i
}

/// The straight reachable case of a planner instance: the goal has no wrap
/// shortcut (the Manhattan distance is the true toroidal distance) and some
/// straight legal walk around the forbidden cells leads to it.
pub open spec fn straight_instance(obst: Set<Position>, start: Position, goal: Position) -> bool {
    &&& torus_dist(start, goal) == manhattan_spec(start, goal)
    &&& exists|dirs: Seq<Direction>| straight_path(obst, start, goal, dirs)
}

/// Every prefix of a straight walk in a no-wrap-shortcut instance is itself
/// optimally placed: after `i` steps the walker sits exactly `i` away from
/// the start and exactly the remaining Manhattan distance from the goal.
pub proof fn lemma_straight_prefix(
    obst: Set<Position>,
    start: Position,
    goal: Position,
    dirs: Seq<Direction>,
    i: int,
)
    requires
        pos_wf(start),
        pos_wf(goal),
        torus_dist(start, goal) == manhattan_spec(start, goal),
        straight_path(obst, start, goal, dirs),
        0 <= i <= dirs.len(),
    ensures
        pos_wf(follow_path(start, dirs.subrange(0, i))),
        torus_dist(start, follow_path(start, dirs.subrange(0, i))) == i,
        torus_dist(follow_path(start, dirs.subrange(0, i)), goal) == manhattan_spec(start, goal)
            - i,
        manhattan_spec(follow_path(start, dirs.subrange(0, i)), goal) == manhattan_spec(
            start,
            goal,
        ) - i,
{
    let p = follow_path(start, dirs.subrange(0, i));
    lemma_follow_wf(start, dirs.subrange(0, i));
    lemma_walk_at_least_dist(start, dirs.subrange(0, i));
    lemma_torus_dist_le_manhattan(p, goal);
    lemma_torus_triangle(start, p, goal);
}

/// On an unobstructed no-wrap-shortcut instance a straight walk always
/// exists: move axis by axis toward the goal.
pub proof fn lemma_empty_straight_path(obst: Set<Position>, start: Position, goal: Position)
    requires
        pos_wf(start),
        pos_wf(goal),
        forall|p: Position| !obst.contains(p),
    ensures
        exists|dirs: Seq<Direction>| straight_path(obst, start, goal, dirs),
    decreases manhattan_spec(start, goal),
{
    if start == goal {
        let dirs = Seq::<Direction>::empty();
        assert forall|i: int| 0 <= i <= dirs.len() implies manhattan_spec(
            follow_path(start, #[trigger] dirs.subrange(0, i)),
            goal,
        ) == manhattan_spec(start, goal) - i by {
            assert(dirs.subrange(0, i) =~= Seq::<Direction>::empty());
        }
        assert(straight_path(obst, start, goal, dirs));
    } else {
        let d = if start.x < goal.x {
            Direction::Right
        } else if start.x > goal.x {
            Direction::Left
        } else if start.y < goal.y {
            Direction::Down
        } else {
            Direction::Up
        };
        let next = move_by_spec(start, d);
        assert(pos_wf(next));
        assert(manhattan_spec(next, goal) == manhattan_spec(start, goal) - 1);
        lemma_empty_straight_path(obst, next, goal);
        let sub = choose|sub: Seq<Direction>| straight_path(obst, next, goal, sub);
        let full = seq![d] + sub;
        assert(full[0] == d);
        assert(full.drop_first() =~= sub);
        assert(path_ok(obst, start, full));
        assert(follow_path(start, full) == goal);
        assert forall|i: int| 0 <= i <= full.len() implies manhattan_spec(
            follow_path(start, #[trigger] full.subrange(0, i)),
            goal,
        ) == manhattan_spec(start, goal) - i by {
            if i == 0 {
                assert(full.subrange(0, 0) =~= Seq::<Direction>::empty());
            } else {
                let pre = full.subrange(0, i);
                assert(pre[0] == d);
                assert(pre.drop_first() =~= sub.subrange(0, i - 1));
                assert(follow_path(start, pre) == follow_path(next, sub.subrange(0, i - 1)));
                assert(manhattan_spec(follow_path(next, sub.subrange(0, i - 1)), goal)
                    == manhattan_spec(next, goal) - (i - 1));
            }
        }
        assert(straight_path(obst, start, goal, full));
    }
}

/// Following one more direction of a walk moves the endpoint of its prefix by
/// exactly that step.
pub proof fn lemma_follow_subrange_step(start: Position, dirs: Seq<Direction>, i: int)
    requires
        0 <= i < dirs.len(),
    ensures
        follow_path(start, dirs.subrange(0, i + 1)) == move_by_spec(
            follow_path(start, dirs.subrange(0, i)),
            dirs[i],
        ),
{
    assert(dirs.subrange(0, i + 1) =~= dirs.subrange(0, i).push(dirs[i]));
    lemma_follow_push(start, dirs.subrange(0, i), dirs[i]);
}

/// Every cell a legal walk enters lies outside the forbidden set, prefix by
/// prefix.
pub proof fn lemma_path_ok_prefix(
    obst: Set<Position>,
    start: Position,
    dirs: Seq<Direction>,
    i: int,
)
    requires
        path_ok(obst, start, dirs),
        0 < i <= dirs.len(),
    ensures
        !obst.contains(follow_path(start, dirs.subrange(0, i))),
    decreases i,
{
    if i == 1 {
        assert(dirs.subrange(0, 1)[0] == dirs[0]);
        assert(dirs.subrange(0, 1).drop_first() =~= Seq::<Direction>::empty());
        assert(follow_path(move_by_spec(start, dirs[0]), Seq::<Direction>::empty())
            == move_by_spec(start, dirs[0]));
        assert(follow_path(start, dirs.subrange(0, 1)) == move_by_spec(start, dirs[0]));
    } else {
        let next = move_by_spec(start, dirs[0]);
        lemma_path_ok_prefix(obst, next, dirs.drop_first(), i - 1);
        let pre = dirs.subrange(0, i);
        assert(pre[0] == dirs[0]);
        assert(pre.drop_first() =~= dirs.drop_first().subrange(0, i - 1));
        assert(follow_path(start, pre) == follow_path(next, dirs.drop_first().subrange(0, i - 1)));
    }
}

/// Law: with no forbidden cells, a pair of cells that shares no wrap
/// shortcut is a straight reachable instance, so a path query between them
/// is answered with a walk of exactly the Manhattan length.
pub proof fn lemma_empty_straight_instance(obst: Set<Position>, start: Position, goal: Position)
    requires
        pos_wf(start),
        pos_wf(goal),
        forall|p: Position| !obst.contains(p),
        torus_dist(start, goal) == manhattan_spec(start, goal),
    ensures
        straight_instance(obst, start, goal),
{
    lemma_empty_straight_path(obst, start, goal);
}

} // verus!
