use snake_game::color::Color;
use snake_game::framebuffer::Framebuffer;
use snake_game::snake::{Direction, Snake};

fn blue() -> Color {
    Color::new(44, 86, 176)
}

#[test]
fn new_snake_has_three_cells_facing_right() {
    let s = Snake::new(10, 10, blue());
    assert_eq!(s.body, vec![(10, 10), (9, 10), (8, 10)]);
    assert_eq!(s.direction(), Direction::Right);
    assert_eq!(s.head_position(), (10, 10));
}

#[test]
fn move_forward_translates_without_growth() {
    let mut s = Snake::new(10, 10, blue());
    s.move_forward();
    assert_eq!(s.body, vec![(11, 10), (10, 10), (9, 10)]);
    assert_eq!(s.body.len(), 3);
}

#[test]
fn move_forward_steps_in_each_direction() {
    let mut s = Snake::new(10, 10, blue());
    s.set_direction(Direction::Up);
    s.move_forward();
    assert_eq!(s.head_position(), (10, 9));
    s.set_direction(Direction::Left);
    s.move_forward();
    assert_eq!(s.head_position(), (9, 9));
    s.set_direction(Direction::Down);
    s.move_forward();
    assert_eq!(s.head_position(), (9, 10));
}

#[test]
fn moving_over_the_low_edge_goes_negative() {
    let mut s = Snake::new(2, 0, blue());
    s.set_direction(Direction::Up);
    s.move_forward();
    assert_eq!(s.head_position(), (2, -1));
}

#[test]
fn grow_takes_effect_on_next_advance_and_keeps_tail() {
    let mut s = Snake::new(10, 10, blue());
    let old_tail = *s.body.last().unwrap();
    s.grow();
    assert_eq!(s.body.len(), 3);
    s.move_forward();
    assert_eq!(s.body.len(), 4);
    assert_eq!(*s.body.last().unwrap(), old_tail);
    // Growth was consumed: the next advance translates again.
    s.move_forward();
    assert_eq!(s.body.len(), 4);
}

#[test]
fn check_collision_detects_head_on_body() {
    let s = Snake {
        body: vec![(5, 5), (5, 6), (4, 6), (4, 5), (5, 5)],
        direction: Direction::Up,
        grow: false,
        color: blue(),
    };
    assert!(s.check_collision());
}

#[test]
fn check_collision_false_without_overlap() {
    let mut s = Snake::new(10, 10, blue());
    assert!(!s.check_collision());
    s.move_forward();
    assert!(!s.check_collision());
}

#[test]
fn draw_paints_one_cell_rectangle_per_body_cell() {
    let mut fb = Framebuffer::new(12, 4);
    let s = Snake::new(2, 0, blue());
    s.draw(&mut fb, 4);
    for x in 0..12 {
        for y in 0..4 {
            assert_eq!(fb.buffer[y * fb.width + x], blue(), "pixel ({}, {})", x, y);
        }
    }
    let mut fb2 = Framebuffer::new(12, 8);
    s.draw(&mut fb2, 4);
    for x in 0..12 {
        for y in 4..8 {
            assert_eq!(fb2.buffer[y * fb2.width + x], Color::new(0, 0, 0));
        }
    }
}

#[test]
fn draw_clips_cells_with_negative_coordinates() {
    let mut fb = Framebuffer::new(8, 8);
    let s = Snake {
        body: vec![(-1, 0), (0, -2)],
        direction: Direction::Right,
        grow: false,
        color: blue(),
    };
    let before = fb.buffer.clone();
    s.draw(&mut fb, 4);
    assert_eq!(fb.buffer, before);
}
