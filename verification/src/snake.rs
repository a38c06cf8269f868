use crate::grid::{adjacent, move_by_spec, opposite_spec, pos_wf, Direction, Position};
use vstd::prelude::*;

verus! {

/// Consecutive body cells are orthogonally adjacent under wrap arithmetic:
/// the body forms an unbroken chain of cells. Together with distinctness
/// (`no_duplicates`, which holds outside a just-occurred self-collision),
/// this is the body's full data-model invariant; `advance` and `shrink`
/// preserve the chain, and a collision-free `tick` preserves distinctness.
pub open spec fn chain_ok(body: Seq<Position>) -> bool {
    forall|i: int| 0 <= i < body.len() - 1 ==> adjacent(#[trigger] body[i], body[i + 1])
}

/// The snake: an ordered sequence of grid cells, head first, together with
/// the committed movement direction and the direction pending for the next
/// advance.
pub struct Snake {
    pub body: Vec<Position>,
    pub direction: Direction,
    pub next_direction: Direction,
}

impl Snake {
    /// The head cell, as a spec-level value.
    pub open spec fn head_spec(&self) -> Position {
        self.body@[0]
    }

    /// Well-formedness: the body never has fewer than two cells, every cell
    /// lies on the grid, and the second cell sits exactly one step behind the
    /// head along the committed direction (the cell the head moved out of).
    pub open spec fn wf(&self) -> bool {
        &&& self.body@.len() >= 2
        &&& forall|i: int| 0 <= i < self.body@.len() ==> pos_wf(#[trigger] self.body@[i])
        &&& self.body@[1] == move_by_spec(self.head_spec(), opposite_spec(self.direction))
    }

    /// Create a three-segment snake heading right, its head at `head` and the
    /// two remaining segments laid out to its left. Coordinates saturate at
    /// the grid edge, so the snake is well-formed only when the head leaves
    /// room for the tail (`head.x >= 2`).
    pub fn new(head: Position) -> (r: Snake)
        ensures
            r.body@ =~= seq![
                head,
                Position { x: if head.x >= 1 { (head.x - 1) as u32 } else { 0u32 }, y: head.y },
                Position { x: if head.x >= 2 { (head.x - 2) as u32 } else { 0u32 }, y: head.y },
            ],
            r.direction == Direction::Right,
            r.next_direction == Direction::Right,
            pos_wf(head) && head.x >= 2 ==> r.wf() && chain_ok(r.body@)
                && r.body@.no_duplicates(),
    {
        let mut body: Vec<Position> = Vec::new();
        body.push(head);
        body.push(Position::new(if head.x >= 1 { head.x - 1 } else { 0 }, head.y));
        body.push(Position::new(if head.x >= 2 { head.x - 2 } else { 0 }, head.y));
        proof {
            if pos_wf(head) && head.x >= 2 {
                assert(move_by_spec(body@[0], Direction::Left) == body@[1]);
                assert(move_by_spec(body@[1], Direction::Left) == body@[2]);
                assert(chain_ok(body@));
            }
        }
        Snake { body, direction: Direction::Right, next_direction: Direction::Right }
    }

    /// The head cell: the first element of the body.
    pub fn head(&self) -> (r: Position)
        requires
            self.body@.len() >= 1,
        ensures
            r == self.head_spec(),
    {
        self.body[0]
    }

    /// Record a pending direction for the next advance. A request for the
    /// exact opposite of the committed direction is silently ignored, which
    /// forbids instant 180-degree reversals.
    pub fn set_direction(&mut self, dir: Direction)
        ensures
            final(self).body == old(self).body,
            final(self).direction == old(self).direction,
            final(self).next_direction == if dir == opposite_spec(old(self).direction) {
                old(self).next_direction
            } else {
                dir
            },
    {
        if dir != self.direction.opposite() {
            self.next_direction = dir;
        }
    }

    /// Commit the pending direction and prepend the new head reached by one
    /// wrapped step. The tail is not removed; growth is the caller's choice.
    pub fn advance(&mut self) -> (r: Position)
        requires
            old(self).body@.len() >= 1,
            pos_wf(old(self).head_spec()),
        ensures
            r == move_by_spec(old(self).head_spec(), old(self).next_direction),
            final(self).body@ =~= seq![r] + old(self).body@,
            final(self).direction == old(self).next_direction,
            final(self).next_direction == old(self).next_direction,
            pos_wf(r),
            old(self).wf() ==> final(self).wf(),
            chain_ok(old(self).body@) ==> chain_ok(final(self).body@),
            old(self).body@.no_duplicates() && !old(self).body@.contains(r)
                ==> final(self).body@.no_duplicates(),
    {
        self.direction = self.next_direction;
        let new_head = self.head().move_by(self.direction);
        self.body.insert(0, new_head);
        proof {
            crate::grid::lemma_move_by_opposite(old(self).head_spec(), old(self).next_direction);
            crate::grid::lemma_opposite(old(self).next_direction);
            if chain_ok(old(self).body@) {
                assert forall|i: int|
                    0 <= i < self.body@.len() - 1 implies adjacent(
                    #[trigger] self.body@[i],
                    self.body@[i + 1],
                ) by {
                    if i == 0 {
                        assert(move_by_spec(
                            new_head,
                            crate::grid::opposite_spec(old(self).next_direction),
                        ) == old(self).head_spec());
                    } else {
                        assert(self.body@[i] == old(self).body@[i - 1]);
                        assert(adjacent(old(self).body@[i - 1], old(self).body@[i]));
                    }
                }
            }
            if old(self).body@.no_duplicates() && !old(self).body@.contains(new_head) {
                assert forall|i: int, j: int|
                    0 <= i < self.body@.len() && 0 <= j < self.body@.len() && i != j implies self
                    .body@[i] != self.body@[j] by {
                    if i != 0 && j != 0 {
                        assert(self.body@[i] == old(self).body@[i - 1]);
                        assert(self.body@[j] == old(self).body@[j - 1]);
                    } else if j == 0 {
                        assert(self.body@[i] == old(self).body@[i - 1]);
                        assert(old(self).body@.contains(old(self).body@[i - 1]));
                    } else {
                        assert(self.body@[j] == old(self).body@[j - 1]);
                        assert(old(self).body@.contains(old(self).body@[j - 1]));
                    }
                }
            }
        }
        new_head
    }

    /// Remove the tail cell. The body must keep at least one segment beyond
    /// the head, so the snake can never become empty.
    pub fn shrink(&mut self)
        requires
            old(self).body@.len() >= 2,
        ensures
            final(self).body@ =~= old(self).body@.drop_last(),
            final(self).direction == old(self).direction,
            final(self).next_direction == old(self).next_direction,
            old(self).wf() && old(self).body@.len() >= 3 ==> final(self).wf(),
            chain_ok(old(self).body@) ==> chain_ok(final(self).body@),
            old(self).body@.no_duplicates() ==> final(self).body@.no_duplicates(),
    {
        let _ = self.body.pop();
        proof {
            if chain_ok(old(self).body@) {
                assert forall|i: int|
                    0 <= i < self.body@.len() - 1 implies adjacent(
                    #[trigger] self.body@[i],
                    self.body@[i + 1],
                ) by {
                    assert(adjacent(old(self).body@[i], old(self).body@[i + 1]));
                }
            }
        }
    }

    /// Whether any body cell equals `pos`.
    pub fn contains(&self, pos: Position) -> (r: bool)
        ensures
            r == self.body@.contains(pos),
    {
        let mut i: usize = 0;
        while i < self.body.len()
            invariant
                0 <= i <= self.body@.len(),
                forall|j: int| 0 <= j < i ==> self.body@[j] != pos,
            decreases self.body@.len() - i,
        {
            if self.body[i] == pos {
                return true;
            }
            i += 1;
        }
        false
    }

    /// Flatten the body into a coordinate sequence for the renderer:
    /// `x0, y0, x1, y1, ...`, head first.
    pub fn serialize(&self) -> (r: Vec<u32>)
        ensures
            r@.len() == 2 * self.body@.len(),
            forall|i: int|
                0 <= i < self.body@.len() ==> r@[2 * i] == (#[trigger] self.body@[i]).x && r@[2 * i
                    + 1] == self.body@[i].y,
    {
        let mut data: Vec<u32> = Vec::new();
        let mut i: usize = 0;
        while i < self.body.len()
            invariant
                0 <= i <= self.body@.len(),
                data@.len() == 2 * i,
                forall|j: int|
                    0 <= j < i ==> data@[2 * j] == (#[trigger] self.body@[j]).x && data@[2 * j + 1]
                        == self.body@[j].y,
            decreases self.body@.len() - i,
        {
            data.push(self.body[i].x);
            data.push(self.body[i].y);
            i += 1;
        }
        data
    }
}

} // verus!
