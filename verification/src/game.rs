use crate::grid::{
    move_by_spec, opposite_spec, pos_wf, Direction, Position, GRID_HEIGHT, GRID_WIDTH,
};
use crate::snake::{chain_ok, Snake};
use vstd::prelude::*;

verus! {

/// Who steers the snake: a human via directional input, or the autonomous
/// agent.
#[derive(Clone, Copy, Debug, PartialEq, Eq, Structural)]
pub enum GameMode {
    Human,
    AI,
}

impl GameMode {
    /// The other mode. Toggling the mode starts a fresh session by policy.
    pub fn toggled(&self) -> (r: GameMode)
        ensures
            *self == GameMode::Human ==> r == GameMode::AI,
            *self == GameMode::AI ==> r == GameMode::Human,
    {
        match self {
            GameMode::Human => GameMode::AI,
            GameMode::AI => GameMode::Human,
        }
    }
}

/// One frame's input snapshot: an optional requested direction, a quit flag,
/// and an edge-triggered mode-toggle flag.
pub struct Input {
    pub direction: Option<Direction>,
    pub quit: bool,
    pub toggle_mode: bool,
}

impl Default for Input {
    /// The empty snapshot: no direction requested, no quit, no toggle.
    fn default() -> (r: Input)
        ensures
            r.direction is None,
            !r.quit,
            !r.toggle_mode,
    {
        Input { direction: Option::None, quit: false, toggle_mode: false }
    }
}

/// Bound on the random placement attempts of an apple respawn before the
/// respawn falls back to an exhaustive scan for a free cell, so a nearly
/// full grid can never make the respawn spin forever.
pub const MAX_SPAWN_ATTEMPTS: u32 = 128;

/// Relies on rand::random_range with the thread-local generator: a uniform
/// sample of the half-open integer range, so the result is below the bound.
/// Nothing is assumed about which value comes back.
#[verifier::external_body]
fn random_below(bound: u32) -> (r: u32)
    requires
        bound >= 1,
    ensures
        r < bound,
{
    rand::random_range(0..bound)
}

/// One game session: the snake, the apple, the score, the terminal flag and
/// the steering mode. Tick pacing is the caller's concern: `tick` advances
/// the simulation by exactly one step.
pub struct GameState {
    pub snake: Snake,
    pub apple: Position,
    pub score: u32,
    pub game_over: bool,
    pub mode: GameMode,
}

impl GameState {
    /// Well-formedness: the snake is well-formed and the apple lies on the
    /// grid.
    pub open spec fn wf(&self) -> bool {
        self.snake.wf() && pos_wf(self.apple)
    }

    /// A fresh session: a three-segment snake at the grid centre heading
    /// right, the apple at (10, 10), score zero, running.
    pub fn new(mode: GameMode) -> (r: GameState)
        ensures
            r.wf(),
            r.snake.body@.len() == 3,
            r.snake.head_spec() == (Position { x: 20, y: 15 }),
            r.snake.body@ =~= seq![
                Position { x: 20, y: 15 },
                Position { x: 19, y: 15 },
                Position { x: 18, y: 15 },
            ],
            r.snake.direction == Direction::Right,
            r.snake.next_direction == Direction::Right,
            r.apple == (Position { x: 10, y: 10 }),
            r.score == 0,
            !r.game_over,
            r.mode == mode,
    {
        GameState {
            snake: Snake::new(Position::new(GRID_WIDTH / 2, GRID_HEIGHT / 2)),
            apple: Position::new(10, 10),
            score: 0,
            game_over: false,
            mode,
        }
    }

    /// Forward a requested direction, if any, to the snake. The snake itself
    /// ignores a request for the exact reverse of its heading.
    pub fn handle_input(&mut self, input: Input)
        ensures
            final(self).snake.body == old(self).snake.body,
            final(self).snake.direction == old(self).snake.direction,
            final(self).snake.next_direction == (match input.direction {
                Option::Some(dir) => if dir == opposite_spec(old(self).snake.direction) {
                    old(self).snake.next_direction
                } else {
                    dir
                },
                Option::None => old(self).snake.next_direction,
            }),
            final(self).apple == old(self).apple,
            final(self).score == old(self).score,
            final(self).game_over == old(self).game_over,
            final(self).mode == old(self).mode,
    {
        if let Option::Some(dir) = input.direction {
            self.snake.set_direction(dir);
        }
    }

    /// Respawn the apple on a cell the snake does not occupy, when one
    /// exists. A bounded number of uniform random placements is tried first;
    /// if all of them land on the snake, a row-major scan takes the first
    /// free cell, so the respawn terminates even on a nearly full grid. With
    /// every cell occupied the apple is left where it was.
    pub fn spawn_apple(&mut self)
        requires
            old(self).wf(),
        ensures
            final(self).snake == old(self).snake,
            final(self).score == old(self).score,
            final(self).game_over == old(self).game_over,
            final(self).mode == old(self).mode,
            final(self).wf(),
            (exists|p: Position| pos_wf(p) && !old(self).snake.body@.contains(p))
                ==> !final(self).snake.body@.contains(final(self).apple),
    {
        let mut attempts: u32 = 0;
        while attempts < MAX_SPAWN_ATTEMPTS
            invariant
                old(self).wf(),
                *self == *old(self),
            decreases MAX_SPAWN_ATTEMPTS - attempts,
        {
            let pos = Position::new(random_below(GRID_WIDTH), random_below(GRID_HEIGHT));
            if !self.snake.contains(pos) {
                self.apple = pos;
                return ;
            }
            attempts += 1;
        }
        let mut y: u32 = 0;
        while y < GRID_HEIGHT
            invariant
                old(self).wf(),
                *self == *old(self),
                y <= GRID_HEIGHT,
                forall|p: Position|
                    pos_wf(p) && p.y < y ==> #[trigger] self.snake.body@.contains(p),
            decreases GRID_HEIGHT - y,
        {
            let mut x: u32 = 0;
            while x < GRID_WIDTH
                invariant
                    old(self).wf(),
                    *self == *old(self),
                    y < GRID_HEIGHT,
                    x <= GRID_WIDTH,
                    forall|p: Position|
                        pos_wf(p) && p.y < y ==> #[trigger] self.snake.body@.contains(p),
                    forall|p: Position|
                        pos_wf(p) && p.y == y && p.x < x ==> #[trigger] self.snake.body@.contains(
                            p,
                        ),
                decreases GRID_WIDTH - x,
            {
                let pos = Position::new(x, y);
                if !self.snake.contains(pos) {
                    self.apple = pos;
                    return ;
                }
                x += 1;
            }
            y += 1;
        }
        proof {
            assert forall|p: Position| pos_wf(p) implies #[trigger] self.snake.body@.contains(
                p,
            ) by {
                assert(p.y < GRID_HEIGHT);
            }
        }
    }

    /// Advance the simulation by one step, unless the session has already
    /// ended. The pending direction is committed and the head moves one
    /// wrapped step. A new head meeting any other body cell ends the session
    /// with the score unchanged. Eating the apple scores a point and
    /// respawns the apple with no shrink, so the snake grows by one;
    /// otherwise the tail is dropped and the length is unchanged.
    pub fn tick(&mut self)
        requires
            old(self).wf(),
            // the score counter needs headroom only on a tick that actually
            // eats the apple; a self-collision or plain move never counts
            ({
                let nh = move_by_spec(old(self).snake.head_spec(), old(self).snake.next_direction);
                !old(self).game_over && !old(self).snake.body@.contains(nh) && nh == old(
                    self,
                ).apple
            }) ==> old(self).score < u32::MAX,
        ensures
            final(self).wf(),
            final(self).mode == old(self).mode,
            old(self).game_over ==> *final(self) == *old(self),
            !old(self).game_over ==> {
                let nh = move_by_spec(old(self).snake.head_spec(), old(self).snake.next_direction);
                let grown = seq![nh] + old(self).snake.body@;
                &&& final(self).snake.direction == old(self).snake.next_direction
                &&& final(self).snake.next_direction == old(self).snake.next_direction
                &&& if old(self).snake.body@.contains(nh) {
                    &&& final(self).game_over
                    &&& final(self).score == old(self).score
                    &&& final(self).apple == old(self).apple
                    &&& final(self).snake.body@ == grown
                    &&& !final(self).snake.body@.no_duplicates()
                } else if nh == old(self).apple {
                    &&& !final(self).game_over == !old(self).game_over
                    &&& final(self).score == old(self).score + 1
                    &&& final(self).snake.body@ == grown
                    &&& ((exists|p: Position| pos_wf(p) && !grown.contains(p))
                        ==> !final(self).snake.body@.contains(final(self).apple))
                } else {
                    &&& final(self).game_over == old(self).game_over
                    &&& final(self).score == old(self).score
                    &&& final(self).apple == old(self).apple
                    &&& final(self).snake.body@ == grown.drop_last()
                }
            },
            chain_ok(old(self).snake.body@) ==> chain_ok(final(self).snake.body@),
            ({
                let nh = move_by_spec(old(self).snake.head_spec(), old(self).snake.next_direction);
                !old(self).game_over && !old(self).snake.body@.contains(nh) && old(
                    self,
                ).snake.body@.no_duplicates()
            }) ==> final(self).snake.body@.no_duplicates(),
    {
        if self.game_over {
            return ;
        }
        let new_head = self.snake.advance();
        let mut collided = false;
        let mut i: usize = 1;
        while i < self.snake.body.len()
            invariant
                1 <= i <= self.snake.body@.len(),
                collided == self.snake.body@.subrange(1, i as int).contains(new_head),
            decreases self.snake.body@.len() - i,
        {
            let ghost pre = i as int;
            if self.snake.body[i] == new_head {
                collided = true;
            }
            proof {
                let s0 = self.snake.body@.subrange(1, pre);
                let s1 = self.snake.body@.subrange(1, pre + 1);
                assert(s1 =~= s0.push(self.snake.body@[pre]));
                assert(s1[s1.len() - 1] == self.snake.body@[pre]);
                if s0.contains(new_head) {
                    let j = choose|j: int| 0 <= j < s0.len() && s0[j] == new_head;
                    assert(s1[j] == new_head);
                }
                if s1.contains(new_head) && self.snake.body@[pre] != new_head {
                    let j = choose|j: int| 0 <= j < s1.len() && s1[j] == new_head;
                    assert(j < s0.len());
                    assert(s0[j] == new_head);
                }
            }
            i += 1;
        }
        proof {
            assert(self.snake.body@.subrange(1, self.snake.body@.len() as int)
                =~= self.snake.body@.drop_first());
            assert(self.snake.body@.drop_first() =~= old(self).snake.body@);
        }
        if collided {
            self.game_over = true;
            proof {
                // the new head sits both in front and somewhere in the old
                // body: a just-occurred self-collision duplicates a cell
                let b = self.snake.body@;
                let k = choose|k: int|
                    0 <= k < old(self).snake.body@.len() && old(self).snake.body@[k] == new_head;
                assert(b[0] == b[k + 1]);
                assert(!b.no_duplicates()) by {
                    if b.no_duplicates() {
                        assert(b[0] != b[k + 1]);
                    }
                }
            }
            return ;
        }
        if new_head == self.apple {
            self.score = self.score + 1;
            self.spawn_apple();
        } else {
            self.snake.shrink();
        }
    }
}

} // verus!
