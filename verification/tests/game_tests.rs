use snake_ai::agent::AIAgent;
use snake_ai::game::{GameMode, GameState, Input};
use snake_ai::grid::{Direction, Position, GRID_HEIGHT, GRID_WIDTH};
use snake_ai::snake::Snake;

#[test]
fn new_game_session_layout() {
    let game = GameState::new(GameMode::Human);
    assert_eq!(
        game.snake.body,
        vec![
            Position::new(20, 15),
            Position::new(19, 15),
            Position::new(18, 15)
        ]
    );
    assert_eq!(game.snake.direction, Direction::Right);
    assert_eq!(game.snake.next_direction, Direction::Right);
    assert_eq!(game.apple, Position::new(10, 10));
    assert_eq!(game.score, 0);
    assert!(!game.game_over);
    assert_eq!(game.mode, GameMode::Human);
}

#[test]
fn mode_toggle_flips() {
    assert_eq!(GameMode::Human.toggled(), GameMode::AI);
    assert_eq!(GameMode::AI.toggled(), GameMode::Human);
}

#[test]
fn input_default_is_empty() {
    let input = Input::default();
    assert!(input.direction.is_none());
    assert!(!input.quit);
    assert!(!input.toggle_mode);
}

#[test]
fn set_direction_opposite_is_ignored() {
    // a request for the exact reverse of the heading never changes the
    // pending direction
    let mut snake = Snake::new(Position::new(20, 15));
    assert_eq!(snake.direction, Direction::Right);
    snake.set_direction(Direction::Left);
    assert_eq!(snake.next_direction, Direction::Right);
    snake.set_direction(Direction::Up);
    assert_eq!(snake.next_direction, Direction::Up);
    // the heading itself only changes on advance
    assert_eq!(snake.direction, Direction::Right);
}

#[test]
fn advance_prepends_and_shrink_drops_tail() {
    let mut snake = Snake::new(Position::new(20, 15));
    let new_head = snake.advance();
    assert_eq!(new_head, Position::new(21, 15));
    assert_eq!(
        snake.body,
        vec![
            Position::new(21, 15),
            Position::new(20, 15),
            Position::new(19, 15),
            Position::new(18, 15)
        ]
    );
    snake.shrink();
    assert_eq!(
        snake.body,
        vec![
            Position::new(21, 15),
            Position::new(20, 15),
            Position::new(19, 15)
        ]
    );
}

#[test]
fn contains_scans_whole_body() {
    let snake = Snake::new(Position::new(20, 15));
    assert!(snake.contains(Position::new(20, 15)));
    assert!(snake.contains(Position::new(18, 15)));
    assert!(!snake.contains(Position::new(21, 15)));
}

#[test]
fn serialize_is_flat_and_head_first() {
    let snake = Snake::new(Position::new(20, 15));
    assert_eq!(snake.serialize(), vec![20, 15, 19, 15, 18, 15]);
}

#[test]
fn handle_input_forwards_direction() {
    let mut game = GameState::new(GameMode::Human);
    game.handle_input(Input { direction: Some(Direction::Up), quit: false, toggle_mode: false });
    assert_eq!(game.snake.next_direction, Direction::Up);
    game.handle_input(Input { direction: None, quit: true, toggle_mode: true });
    assert_eq!(game.snake.next_direction, Direction::Up);
}

#[test]
fn tick_plain_move_keeps_length_and_score() {
    let mut game = GameState::new(GameMode::Human);
    game.tick();
    assert!(!game.game_over);
    assert_eq!(game.score, 0);
    assert_eq!(
        game.snake.body,
        vec![
            Position::new(21, 15),
            Position::new(20, 15),
            Position::new(19, 15)
        ]
    );
    assert_eq!(game.apple, Position::new(10, 10));
}

#[test]
fn tick_eating_apple_grows_and_scores() {
    let mut game = GameState::new(GameMode::Human);
    game.apple = Position::new(21, 15);
    game.tick();
    assert!(!game.game_over);
    assert_eq!(game.score, 1);
    assert_eq!(game.snake.body.len(), 4);
    assert_eq!(game.snake.body[0], Position::new(21, 15));
    // the apple respawned on the grid, off the snake
    assert!(game.apple.x < GRID_WIDTH && game.apple.y < GRID_HEIGHT);
    assert!(!game.snake.contains(game.apple));
}

#[test]
fn tick_after_game_over_changes_nothing() {
    let mut game = GameState::new(GameMode::Human);
    game.game_over = true;
    game.tick();
    assert_eq!(game.snake.body.len(), 3);
    assert_eq!(game.score, 0);
    assert!(game.game_over);
}

#[test]
fn spawn_apple_always_lands_on_free_grid_cell() {
    let mut game = GameState::new(GameMode::Human);
    for _ in 0..50 {
        game.spawn_apple();
        assert!(game.apple.x < GRID_WIDTH && game.apple.y < GRID_HEIGHT);
        assert!(!game.snake.contains(game.apple));
    }
}

#[test]
fn spawn_apple_finds_the_single_free_cell() {
    // a serpentine body covering every cell but one: the respawn must end on
    // that cell instead of resampling forever
    let mut body = Vec::new();
    for y in 0..GRID_HEIGHT {
        if y % 2 == 0 {
            for x in 0..GRID_WIDTH {
                body.push(Position::new(x, y));
            }
        } else {
            for x in (0..GRID_WIDTH).rev() {
                body.push(Position::new(x, y));
            }
        }
    }
    let free = body.pop().unwrap();
    assert_eq!(free, Position::new(0, GRID_HEIGHT - 1));
    let snake = Snake { body, direction: Direction::Left, next_direction: Direction::Left };
    let mut game = GameState {
        snake,
        apple: Position::new(10, 10),
        score: 0,
        game_over: false,
        mode: GameMode::AI,
    };
    game.spawn_apple();
    assert_eq!(game.apple, free);
}

#[test]
fn agent_first_move_heads_toward_apple() {
    // 3-segment snake at (20,15) heading right, apple at (10,10): with a safe
    // path available the first chosen step must close in on the apple
    let game = GameState::new(GameMode::AI);
    let choice = AIAgent::decide(&game);
    assert!(choice == Direction::Up || choice == Direction::Left);
    let head = Position::new(20, 15);
    let before = head.manhattan_distance(&game.apple);
    let after = head.move_by(choice).manhattan_distance(&game.apple);
    assert_eq!(after, before - 1);
}

#[test]
fn enclosed_snake_collides_on_next_tick() {
    // the snake has sealed itself in: every candidate move fails the safety
    // oracle, the fallback finds no open direction and keeps the heading,
    // and the following tick ends the session with the score unchanged
    // a genuine snake: one unbroken chain of 25 distinct cells spiralling
    // out from the head, covering the two rings around it completely
    let centre = Position::new(5, 5);
    let mut body = vec![centre];
    for (x, y) in [
        (5, 6),
        (6, 6),
        (6, 5),
        (6, 4),
        (5, 4),
        (4, 4),
        (4, 5),
        (4, 6),
        (3, 6),
        (3, 7),
        (4, 7),
        (5, 7),
        (6, 7),
        (7, 7),
        (7, 6),
        (7, 5),
        (7, 4),
        (7, 3),
        (6, 3),
        (5, 3),
        (4, 3),
        (3, 3),
        (3, 4),
        (3, 5),
    ] {
        body.push(Position::new(x, y));
    }
    for i in 1..body.len() {
        let a = body[i - 1];
        let b = body[i];
        assert_eq!(a.x.abs_diff(b.x) + a.y.abs_diff(b.y), 1);
    }
    let body_len = body.len();
    for d in [Direction::Up, Direction::Down, Direction::Left, Direction::Right] {
        assert!(!AIAgent::is_safe_move(centre.move_by(d), &body));
    }
    let mut game = GameState {
        snake: Snake { body, direction: Direction::Up, next_direction: Direction::Up },
        apple: Position::new(20, 20),
        score: 7,
        game_over: false,
        mode: GameMode::AI,
    };
    let choice = AIAgent::decide(&game);
    assert_eq!(choice, Direction::Up);
    game.snake.set_direction(choice);
    game.tick();
    assert!(game.game_over);
    assert_eq!(game.score, 7);
    assert_eq!(game.snake.body.len(), body_len + 1);
}

#[test]
fn tick_without_apple_needs_no_score_headroom() {
    // only an apple-eating tick counts; a plain move or a collision leaves
    // the score alone even when the counter is already saturated
    let mut game = GameState::new(GameMode::Human);
    game.score = u32::MAX;
    game.tick();
    assert!(!game.game_over);
    assert_eq!(game.score, u32::MAX);
    assert_eq!(game.snake.body[0], Position::new(21, 15));
}
