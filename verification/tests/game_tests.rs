use snake_game::color::Color;
use snake_game::framebuffer::Framebuffer;
use snake_game::game::{GameState, apply_direction_input, draw_border_and_grid, spawn_apple, tick};
use snake_game::snake::{Direction, Snake};

fn blue() -> Color {
    Color::new(44, 86, 176)
}

fn fresh_state(apple: (i32, i32)) -> GameState {
    GameState {
        snake: Snake::new(10, 10, blue()),
        apple,
        score: 0,
        high_score: 0,
        grid_width: 32,
        grid_height: 22,
    }
}

#[test]
fn reversal_request_is_rejected() {
    let mut s = Snake::new(10, 10, blue());
    apply_direction_input(&mut s, false, false, true, false);
    assert_eq!(s.direction(), Direction::Right);
}

#[test]
fn first_active_key_in_priority_order_wins() {
    let mut s = Snake::new(10, 10, blue());
    apply_direction_input(&mut s, true, true, true, false);
    assert_eq!(s.direction(), Direction::Up);
    let mut s2 = Snake::new(10, 10, blue());
    s2.set_direction(Direction::Down);
    // Up would be a reversal of Down, so the down key is honored instead.
    apply_direction_input(&mut s2, true, true, false, false);
    assert_eq!(s2.direction(), Direction::Down);
}

#[test]
fn reversal_never_causes_immediate_self_collision() {
    let mut st = fresh_state((1, 1));
    let r = tick(&mut st, false, false, true, false);
    assert!(!r.game_over);
    assert_eq!(st.snake.direction(), Direction::Right);
    assert_eq!(st.snake.head_position(), (11, 10));
    assert!(!st.snake.check_collision());
}

#[test]
fn five_ticks_right_move_head_five_cells() {
    let mut st = fresh_state((1, 1));
    for _ in 0..5 {
        let r = tick(&mut st, false, false, false, false);
        assert!(!r.game_over);
    }
    assert_eq!(st.snake.head_position(), (15, 10));
    assert_eq!(st.snake.body.len(), 3);
    assert_eq!(st.score, 0);
}

#[test]
fn eating_once_during_five_ticks_grows_and_scores() {
    let mut st = fresh_state((12, 10));
    let mut ate = 0;
    for _ in 0..5 {
        let r = tick(&mut st, false, false, false, false);
        assert!(!r.game_over);
        if r.ate {
            ate += 1;
        }
    }
    assert_eq!(ate, 1);
    assert_eq!(st.snake.head_position(), (15, 10));
    assert_eq!(st.snake.body.len(), 4);
    assert_eq!(st.score, 1);
    assert_eq!(st.high_score, 1);
}

#[test]
fn new_high_score_is_reported_once_surpassed() {
    let mut st = fresh_state((11, 10));
    st.high_score = 3;
    let r = tick(&mut st, false, false, false, false);
    assert!(r.ate);
    assert!(!r.new_high);
    assert_eq!(st.high_score, 3);
    let mut st2 = fresh_state((11, 10));
    st2.score = 3;
    st2.high_score = 3;
    let r2 = tick(&mut st2, false, false, false, false);
    assert!(r2.ate);
    assert!(r2.new_high);
    assert_eq!(st2.high_score, 4);
}

#[test]
fn hitting_the_border_ends_the_round() {
    let mut st = fresh_state((1, 1));
    st.snake = Snake::new(30, 10, blue());
    let r = tick(&mut st, false, false, false, false);
    assert!(r.game_over);
    assert_eq!(st.snake.head_position(), (31, 10));
}

#[test]
fn running_into_the_own_body_ends_the_round() {
    let mut st = fresh_state((1, 1));
    st.snake = Snake {
        body: vec![(10, 10), (10, 11), (11, 11), (11, 10), (12, 10)],
        direction: Direction::Right,
        grow: false,
        color: blue(),
    };
    let r = tick(&mut st, false, false, false, false);
    assert!(r.game_over);
}

#[test]
fn spawned_apple_is_inside_and_off_the_body() {
    let snake = Snake::new(10, 10, blue());
    for _ in 0..20 {
        let apple = spawn_apple(&snake, 32, 22).unwrap();
        assert!(apple.0 >= 1 && apple.0 < 31);
        assert!(apple.1 >= 1 && apple.1 < 21);
        assert!(!snake.body.contains(&apple));
    }
}

#[test]
fn spawn_apple_on_full_interior_returns_none() {
    let snake = Snake {
        body: vec![(1, 1)],
        direction: Direction::Right,
        grow: false,
        color: blue(),
    };
    assert_eq!(spawn_apple(&snake, 3, 3), None);
    let free = Snake::new(10, 10, blue());
    assert_eq!(spawn_apple(&free, 3, 3), Some((1, 1)));
}

#[test]
fn backdrop_has_border_ring_and_checker_interior() {
    let mut fb = Framebuffer::new(12, 12);
    draw_border_and_grid(&mut fb, 12, 12, 4);
    let border = Color::new(144, 12, 63);
    let c1 = Color::new(230, 176, 170);
    for x in 0..12 {
        for y in 0..12 {
            let cx = x / 4;
            let cy = y / 4;
            let expected = if cx == 0 || cx == 2 || cy == 0 || cy == 2 { border } else { c1 };
            assert_eq!(fb.buffer[y * fb.width + x], expected, "pixel ({}, {})", x, y);
        }
    }
}

#[test]
fn backdrop_checker_alternates() {
    let mut fb = Framebuffer::new(20, 20);
    draw_border_and_grid(&mut fb, 20, 20, 4);
    let c1 = Color::new(230, 176, 170);
    let c2 = Color::new(215, 189, 226);
    // Cell (1, 1): parity even; cell (2, 1): parity odd.
    assert_eq!(fb.buffer[5 * 20 + 5], c1);
    assert_eq!(fb.buffer[5 * 20 + 9], c2);
}

#[test]
fn backdrop_leaves_pixels_beyond_whole_cells() {
    let mut fb = Framebuffer::new(10, 10);
    draw_border_and_grid(&mut fb, 10, 10, 4);
    // Two whole cells fit each way; pixels past 8 keep their old color.
    assert_eq!(fb.buffer[9 * 10 + 9], Color::new(0, 0, 0));
    assert_eq!(fb.buffer[0], Color::new(144, 12, 63));
}
